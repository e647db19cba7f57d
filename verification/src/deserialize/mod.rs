//! Deserialization: one record per line, a dump of records per text.

use rayon::iter::{IntoParallelRefIterator, ParallelIterator};
use vstd::prelude::*;
use vstd::slice::slice_subrange;
use vstd::utf8::*;

use crate::deserialize::record::{parse_collection_body, Fault};
use crate::deserialize::scan::find_line_end;
use crate::error::{parse_error, FonError};
use crate::format::{
    after_line_end, find_from, lemma_find_from, lemma_line_end_from, lemma_read_records_concat,
    lemma_text_lines_concat, line_end_from, no_line_aborts, read_fields, read_line, read_records,
    strip_bom, text_lines, Failure,
};
use crate::text::{is_valid_utf8, lemma_split_after_ascii, lemma_split_before_ascii};
use crate::types::{FonCollection, FonDump, ValueModel};

pub mod record;
pub mod scalar;
pub mod scan;

verus! {

/// How records are read.
pub struct DeserializeOptions {
    /// The deepest nesting of records that is accepted.
    pub max_depth: i32,
    /// Whether raw payloads are decoded from their Z85 text while reading.
    pub unpack_raw: bool,
}

impl Default for DeserializeOptions {
    fn default() -> (r: Self)
        ensures
            r.max_depth == 64,
            !r.unpack_raw,
    {
        DeserializeOptions { max_depth: 64, unpack_raw: false }
    }
}

fn read_line_exec(line: &[u8], opts: &DeserializeOptions) -> (r: Result<FonCollection, Fault>)
    ensures
        match read_line(line@, *opts) {
            Ok(fs) => r matches Ok(c) && c@ == fs,
            Err(Failure::Error(m)) => r matches Err(Fault::Error(FonError::Parse(e))) && e@ == m,
            Err(Failure::Aborts) => r is Err && r->Err_0 is Aborts,
        },
{
    if !is_valid_utf8(line) {
        return Err(Fault::Error(parse_error("Invalid UTF-8 in input")));
    }
    parse_collection_body(line, 0, opts)
}

/// Reads one line into a record (see `read_line`). The line must not hold a
/// raw payload, to be unpacked, whose Z85 text the decoder does not handle.
pub fn deserialize_line(line: &[u8], opts: &DeserializeOptions) -> (r: Result<FonCollection, FonError>)
    requires
        !(read_line(line@, *opts) matches Err(Failure::Aborts)),
    ensures
        match read_line(line@, *opts) {
            Ok(fs) => r matches Ok(c) && c@ == fs,
            Err(Failure::Error(m)) => r matches Err(FonError::Parse(e)) && e@ == m,
            Err(Failure::Aborts) => false,
        },
{
    match read_line_exec(line, opts) {
        Ok(c) => Ok(c),
        Err(Fault::Error(e)) => Err(e),
        Err(Fault::Aborts) => Err(parse_error("Invalid Z85 character")),
    }
}

/// Reads one line into a record as `deserialize_line` does; `None` where the
/// line holds a raw payload, to be unpacked, whose Z85 text the decoder does
/// not handle.
pub fn try_deserialize_line(line: &[u8], opts: &DeserializeOptions) -> (r: Option<
    Result<FonCollection, FonError>,
>)
    ensures
        match read_line(line@, *opts) {
            Ok(fs) => r matches Some(Ok(c)) && c@ == fs,
            Err(Failure::Error(m)) => r matches Some(Err(FonError::Parse(e))) && e@ == m,
            Err(Failure::Aborts) => r is None,
        },
{
    match read_line_exec(line, opts) {
        Ok(c) => Some(Ok(c)),
        Err(Fault::Error(e)) => Some(Err(e)),
        Err(Fault::Aborts) => None,
    }
}

/// The fields of each record of a sequence.
pub open spec fn records_of(v: Seq<FonCollection>) -> Seq<Seq<(Seq<char>, ValueModel)>> {
    v.map_values(|c: FonCollection| c@)
}

/// What reading a chunk of a dump gives: an error when it is not valid
/// UTF-8; otherwise the records of its lines (see `read_records`).
pub open spec fn chunk_read(
    chunk: Seq<u8>,
    opts: DeserializeOptions,
    r: Result<Vec<FonCollection>, FonError>,
) -> bool {
    if !valid_utf8(chunk) {
        r matches Err(FonError::Parse(m)) && m@ == "Invalid UTF-8 in input"@
    } else {
        match read_records(text_lines(chunk), opts) {
            Ok(rs) => r matches Ok(v) && records_of(v@) == rs,
            Err(Failure::Error(m)) => r matches Err(FonError::Parse(e)) && e@ == m,
            Err(Failure::Aborts) => false,
        }
    }
}

/// The lines of the rest of a text after a line that ends at `t`.
proof fn lemma_text_lines_step(s: Seq<u8>, t: int)
    requires
        s.len() > 0,
        line_end_from(s, 0) == Some(t),
    ensures
        0 <= t < s.len(),
        t < after_line_end(s, t) <= s.len(),
        text_lines(s) == (if t > 0 {
            seq![s.subrange(0, t)]
        } else {
            Seq::<Seq<u8>>::empty()
        }) + text_lines(s.subrange(after_line_end(s, t), s.len() as int)),
{
    lemma_line_end_from(s, 0);
    let rest = text_lines(s.subrange(after_line_end(s, t), s.len() as int));
    if t == 0 {
        assert(Seq::<Seq<u8>>::empty() + rest =~= rest);
    }
}

/// Reading one more line after lines that were read.
proof fn lemma_read_one_more(
    done: Seq<Seq<u8>>,
    line: Seq<u8>,
    got: Seq<Seq<(Seq<char>, ValueModel)>>,
    opts: DeserializeOptions,
)
    requires
        read_records(done, opts) == Ok::<Seq<Seq<(Seq<char>, ValueModel)>>, Failure>(got),
    ensures
        read_records(done.push(line), opts) == match read_fields(line, 0, opts) {
            Err(f) => Err(f),
            Ok(fs) => Ok::<Seq<Seq<(Seq<char>, ValueModel)>>, Failure>(
                if fs.len() == 0 {
                    got
                } else {
                    got.push(fs)
                },
            ),
        },
{
    let one = seq![line];
    let none = Seq::<Seq<u8>>::empty();
    assert(done.push(line) =~= done + one);
    lemma_read_records_concat(done, one, opts);
    assert(one.subrange(1, 1) =~= none);
    assert(one[0] == line);
    assert(read_records(none, opts) == Ok::<Seq<Seq<(Seq<char>, ValueModel)>>, Failure>(
        Seq::empty(),
    ));
    if let Ok(fs) = read_fields(line, 0, opts) {
        if fs.len() == 0 {
            assert(got + Seq::<Seq<(Seq<char>, ValueModel)>>::empty() =~= got);
        } else {
            assert(seq![fs] + Seq::<Seq<(Seq<char>, ValueModel)>>::empty() =~= seq![fs]);
            assert(got + seq![fs] =~= got.push(fs));
        }
    }
}

/// Reads the records of `content[start..end]`, one per line; lines end at
/// `\n`, `\r` or `\r\n`, empty lines and records without fields are left
/// out (see `chunk_read`).
fn parse_chunk(content: &[u8], start: usize, end: usize, opts: &DeserializeOptions) -> (r: Result<
    Vec<FonCollection>,
    FonError,
>)
    requires
        start <= end <= content@.len(),
        no_line_aborts(content@.subrange(start as int, end as int), *opts),
    ensures
        chunk_read(content@.subrange(start as int, end as int), *opts, r),
{
    let chunk = slice_subrange(content, start, end);
    if !is_valid_utf8(chunk) {
        return Err(parse_error("Invalid UTF-8 in input"));
    }
    let ghost all = text_lines(chunk@);
    let mut out: Vec<FonCollection> = Vec::new();
    let len = chunk.len();
    let mut pos: usize = 0;
    let ghost mut done: Seq<Seq<u8>> = Seq::empty();
    proof {
        assert(chunk@.subrange(0, len as int) =~= chunk@);
        assert(chunk@.subrange(0, chunk@.len() as int) =~= chunk@);
        assert(Seq::<Seq<u8>>::empty() + all =~= all);
        assert(records_of(out@) =~= Seq::<Seq<(Seq<char>, ValueModel)>>::empty());
        assert(read_records(done, *opts) == Ok::<Seq<Seq<(Seq<char>, ValueModel)>>, Failure>(
            Seq::empty(),
        ));
    }
    while pos < len
        invariant
            len == chunk@.len(),
            pos <= len,
            valid_utf8(chunk@),
            valid_utf8(chunk@.subrange(pos as int, len as int)),
            chunk@ == content@.subrange(start as int, end as int),
            no_line_aborts(chunk@, *opts),
            all == text_lines(chunk@),
            all == done + text_lines(chunk@.subrange(pos as int, len as int)),
            read_records(done, *opts) == Ok::<Seq<Seq<(Seq<char>, ValueModel)>>, Failure>(
                records_of(out@),
            ),
        decreases len - pos,
    {
        let rem = slice_subrange(chunk, pos, len);
        let ghost rest_lines = text_lines(rem@);
        proof {
            lemma_line_end_from(rem@, 0);
        }
        match find_line_end(rem) {
            Some(rel) => {
                let nl = pos + rel;
                proof {
                    lemma_text_lines_step(rem@, rel as int);
                    assert(rem@[rel as int] == chunk@[nl as int]);
                    if rel + 1 < rem@.len() {
                        assert(rem@[rel + 1] == chunk@[nl + 1]);
                    }
                }
                let next = if chunk[nl] == 13 && nl + 1 < len && chunk[nl + 1] == 10 {
                    nl + 2
                } else {
                    nl + 1
                };
                proof {
                    assert(next - pos == after_line_end(rem@, rel as int));
                    assert(rem@.subrange(next - pos, rem@.len() as int) =~= chunk@.subrange(
                        next as int,
                        len as int,
                    ));
                    let cut = next - pos;
                    assert(rem@ =~= rem@.subrange(0, cut) + rem@.subrange(cut, rem@.len() as int));
                    assert(rem@.subrange(0, cut)[cut - 1] == chunk@[next - 1]);
                    lemma_split_after_ascii(rem@.subrange(0, cut), rem@.subrange(cut, rem@.len() as int));
                    assert(rem@ =~= rem@.subrange(0, rel as int) + rem@.subrange(rel as int, rem@.len() as int));
                    assert(rem@.subrange(rel as int, rem@.len() as int)[0] == rem@[rel as int]);
                    lemma_split_before_ascii(rem@.subrange(0, rel as int), rem@.subrange(rel as int, rem@.len() as int));
                }
                if nl > pos {
                    let line = slice_subrange(chunk, pos, nl);
                    proof {
                        assert(line@ =~= rem@.subrange(0, rel as int));
                        assert(all[done.len() as int] == line@);
                        assert(!(read_fields(line@, 0, *opts) matches Err(Failure::Aborts)));
                        lemma_read_one_more(done, line@, records_of(out@), *opts);
                    }
                    match parse_collection_body(line, 0, opts) {
                        Ok(c) => {
                            let ghost before = out@;
                            if !c.is_empty() {
                                out.push(c);
                            }
                            proof {
                                if c@.len() > 0 {
                                    assert(records_of(out@) =~= records_of(before).push(c@));
                                } else {
                                    assert(out@ == before);
                                }
                                assert(all =~= done.push(line@) + text_lines(
                                    chunk@.subrange(next as int, len as int),
                                ));
                                done = done.push(line@);
                            }
                        },
                        Err(Fault::Error(e)) => {
                            proof {
                                let tail = text_lines(chunk@.subrange(next as int, len as int));
                                assert(all =~= done.push(line@) + tail);
                                lemma_read_records_concat(done.push(line@), tail, *opts);
                            }
                            return Err(e);
                        },
                        Err(Fault::Aborts) => {
                            proof {
                                assert(false);
                            }
                            return Err(parse_error("Invalid Z85 character"));
                        },
                    }
                } else {
                    proof {
                        assert(all =~= done + text_lines(chunk@.subrange(next as int, len as int)));
                    }
                }
                pos = next;
            },
            None => {
                let line = rem;
                proof {
                    assert(rest_lines == seq![rem@]);
                    assert(all[done.len() as int] == line@);
                    assert(!(read_fields(line@, 0, *opts) matches Err(Failure::Aborts)));
                    lemma_read_one_more(done, line@, records_of(out@), *opts);
                    assert(all =~= done.push(line@));
                }
                match parse_collection_body(line, 0, opts) {
                    Ok(c) => {
                        let ghost before = out@;
                        if !c.is_empty() {
                            out.push(c);
                        }
                        proof {
                            if c@.len() > 0 {
                                assert(records_of(out@) =~= records_of(before).push(c@));
                            } else {
                                assert(out@ == before);
                            }
                            done = done.push(line@);
                            assert(chunk@.subrange(len as int, len as int) =~= Seq::<u8>::empty());
                            assert(all =~= done + text_lines(chunk@.subrange(len as int, len as int)));
                        }
                    },
                    Err(Fault::Error(e)) => {
                        return Err(e);
                    },
                    Err(Fault::Aborts) => {
                        proof {
                            assert(false);
                        }
                        return Err(parse_error("Invalid Z85 character"));
                    },
                }
                pos = len;
            },
        }
    }
    proof {
        assert(chunk@.subrange(pos as int, len as int) =~= Seq::<u8>::empty());
        assert(done + Seq::<Seq<u8>>::empty() =~= done);
    }
    Ok(out)
}

// ---------------------------------------------------------------------------
// Dumps
// ---------------------------------------------------------------------------

/// Bounds of consecutive chunks that cover the text from start to end; each
/// chunk but the last is not empty and ends with `\n`.
pub open spec fn chunks_ok(content: Seq<u8>, b: Seq<(usize, usize)>) -> bool {
    &&& b.len() >= 1
    &&& b[0].0 == 0
    &&& b[b.len() - 1].1 == content.len()
    &&& forall|i: int| 0 <= i < b.len() ==> (#[trigger] b[i]).0 <= b[i].1 <= content.len()
    &&& forall|i: int|
        0 <= i < b.len() - 1 ==> (#[trigger] b[i]).1 == b[i + 1].0 && b[i].0 < b[i].1
            && content[b[i].1 - 1] == 10
}

/// The first `\n` at or after `from`.
fn newline_from(content: &[u8], from: usize) -> (r: Option<usize>)
    requires
        from <= content@.len(),
    ensures
        match find_from(content@, 10, from as int) {
            Some(i) => r == Some(i as usize),
            None => r is None,
        },
{
    let mut i = from;
    while i < content.len()
        invariant
            from <= i <= content@.len(),
            find_from(content@, 10, from as int) == find_from(content@, 10, i as int),
        decreases content@.len() - i,
    {
        if content[i] == 10 {
            return Some(i);
        }
        i += 1;
    }
    None
}

/// Where the cut after `i` of `n` equal shares of the text falls: just after
/// the first `\n` at or after `len * i / n`, or at the end.
spec fn cut_at(c: Seq<u8>, n: int, i: int) -> int {
    match find_from(c, 10, c.len() * i / n) {
        Some(p) => p + 1,
        None => c.len() as int,
    }
}

/// The cut points after the shares `1..i`: 0, then each cut that lies past
/// the last one kept.
spec fn cut_points(c: Seq<u8>, n: int, i: int) -> Seq<int>
    decreases i,
{
    if i <= 1 {
        seq![0int]
    } else {
        let prev = cut_points(c, n, i - 1);
        let next = cut_at(c, n, i - 1);
        if prev.last() < next {
            prev.push(next)
        } else {
            prev
        }
    }
}

/// The chunks of a text cut into `n` shares: one chunk for empty text or
/// `n <= 1`; otherwise the spans between the cut points after all shares,
/// with the end of the text as the last point.
spec fn chunks_of(c: Seq<u8>, n: int) -> Seq<(int, int)> {
    if c.len() == 0 || n <= 1 {
        seq![(0int, c.len() as int)]
    } else {
        let ps = cut_points(c, n, n);
        let all = if ps.last() != c.len() {
            ps.push(c.len() as int)
        } else {
            ps
        };
        Seq::new((all.len() - 1) as nat, |k: int| (all[k], all[k + 1]))
    }
}

/// Cuts the text into at most `n` (and at least one) chunks that end right
/// after a `\n` (or at the end), so that no line is split; none is empty
/// unless the text is.
fn chunk_bounds(content: &[u8], n: usize) -> (r: Vec<(usize, usize)>)
    ensures
        chunks_ok(content@, r@),
        r@.len() <= if n > 1 {
            n as int
        } else {
            1
        },
        content@.len() > 0 ==> r@[r@.len() - 1].0 < r@[r@.len() - 1].1,
        r@.len() == chunks_of(content@, n as int).len(),
        forall|k: int|
            0 <= k < r@.len() ==> #[trigger] r@[k].0 == chunks_of(content@, n as int)[k].0 && r@[k].1
                == chunks_of(content@, n as int)[k].1,
{
    let len = content.len();
    if len == 0 || n <= 1 {
        let mut one: Vec<(usize, usize)> = Vec::new();
        one.push((0, len));
        return one;
    }
    let mut points: Vec<usize> = Vec::new();
    points.push(0);
    let mut i: usize = 1;
    while i < n
        invariant
            len == content@.len(),
            len > 0,
            n > 1,
            1 <= i <= n,
            points@.len() >= 1,
            points@.len() <= i,
            points@.len() == cut_points(content@, n as int, i as int).len(),
            forall|k: int|
                0 <= k < points@.len() ==> #[trigger] points@[k] == cut_points(
                    content@,
                    n as int,
                    i as int,
                )[k],
            points@[0] == 0,
            forall|a: int, b: int| 0 <= a < b < points@.len() ==> points@[a] < points@[b],
            forall|k: int| 0 <= k < points@.len() ==> #[trigger] points@[k] <= len,
            forall|k: int|
                0 < k < points@.len() ==> #[trigger] points@[k] == len || content@[points@[k] - 1]
                    == 10,
        decreases n - i,
    {
        proof {
            assert((len as int) * (i as int) <= 0xffff_ffff_ffff_ffff * 0xffff_ffff_ffff_ffff)
                by (nonlinear_arith)
                requires
                    len <= 0xffff_ffff_ffff_ffff,
                    i <= 0xffff_ffff_ffff_ffff,
            ;
        }
        let prod: u128 = (len as u128) * (i as u128);
        let wide: u128 = prod / (n as u128);
        proof {
            assert(wide <= len) by (nonlinear_arith)
                requires
                    prod == (len as int) * (i as int),
                    wide as int == (prod as int) / (n as int),
                    i < n,
                    n > 1,
            ;
        }
        let approx = wide as usize;
        proof {
            lemma_find_from(content@, 10, approx as int);
        }
        let next = match newline_from(content, approx) {
            Some(p) => p + 1,
            None => len,
        };
        let last = points[points.len() - 1];
        let ghost before = points@;
        proof {
            assert(next == cut_at(content@, n as int, i as int));
        }
        if last < next {
            points.push(next);
        }
        proof {
            let cp = cut_points(content@, n as int, i + 1);
            assert(cut_points(content@, n as int, i as int).last() == last);
            assert forall|k: int| 0 <= k < points@.len() implies #[trigger] points@[k] == cp[k] by {
                if k < before.len() {
                    assert(points@[k] == before[k]);
                }
            }
        }
        i += 1;
    }
    let last = points[points.len() - 1];
    if last != len {
        points.push(len);
    }
    let mut out: Vec<(usize, usize)> = Vec::new();
    let mut k: usize = 0;
    let m = points.len() - 1;
    while k < m
        invariant
            m == points@.len() - 1,
            m <= n,
            len == content@.len(),
            len > 0,
            points@.len() >= 1,
            points@[0] == 0,
            points@[points@.len() - 1] == len,
            forall|a: int, b: int| 0 <= a < b < points@.len() ==> points@[a] < points@[b],
            forall|j: int| 0 <= j < points@.len() ==> #[trigger] points@[j] <= len,
            forall|j: int|
                0 < j < points@.len() ==> #[trigger] points@[j] == len || content@[points@[j] - 1]
                    == 10,
            k + 1 <= points@.len(),
            out@.len() == k,
            forall|j: int| 0 <= j < k ==> #[trigger] out@[j] == (points@[j], points@[j + 1]),
        decreases points@.len() - k,
    {
        out.push((points[k], points[k + 1]));
        k += 1;
    }
    proof {
        assert forall|j: int| 0 <= j < out@.len() - 1 implies (#[trigger] out@[j]).1 == out@[j
            + 1].0 && out@[j].0 < out@[j].1 && content@[out@[j].1 - 1] == 10 by {
            assert(out@[j] == (points@[j], points@[j + 1]));
            assert(out@[j + 1] == (points@[j + 1], points@[j + 2]));
            assert(points@[j + 1] < points@[j + 2]);
        }
        assert(out@[out@.len() - 1] == (points@[k - 1], points@[k as int]));
    }
    out
}

/// The records of a sequence, keyed by position.
pub open spec fn records_map(rs: Seq<Seq<(Seq<char>, ValueModel)>>) -> Map<
    u64,
    Seq<(Seq<char>, ValueModel)>,
> {
    Map::new(|id: u64| (id as int) < rs.len(), |id: u64| rs[id as int])
}

/// The text has a first part, valid UTF-8 and ending with `\n`, whose
/// lines fail with message `m`.
pub open spec fn early_line_error(c: Seq<u8>, opts: DeserializeOptions, m: Seq<char>) -> bool {
    exists|k: int|
        0 < k < c.len() && c[k - 1] == 10 && valid_utf8(#[trigger] c.subrange(0, k)) && read_records(
            text_lines(c.subrange(0, k)),
            opts,
        ) == Err::<Seq<Seq<(Seq<char>, ValueModel)>>, Failure>(Failure::Error(m))
}

/// What reading a dump's text (after a byte-order mark) gives: an empty dump
/// for empty text; otherwise, for text that is not valid UTF-8, the error
/// "Invalid UTF-8 in input" or that of a line that comes before the bytes
/// that are not UTF-8 (so the former wherever no such line fails); for valid
/// text, the records of its lines, keyed by position, or the first line's
/// error.
pub open spec fn dump_read(c: Seq<u8>, opts: DeserializeOptions, r: Result<FonDump, FonError>) -> bool {
    if c.len() == 0 {
        r matches Ok(d) && d@ == Map::<u64, Seq<(Seq<char>, ValueModel)>>::empty()
    } else if !valid_utf8(c) {
        r matches Err(FonError::Parse(m)) && (m@ == "Invalid UTF-8 in input"@ || early_line_error(
            c,
            opts,
            m@,
        ))
    } else {
        match read_records(text_lines(c), opts) {
            Ok(rs) => r matches Ok(d) && d@ == records_map(rs),
            Err(Failure::Error(m)) => r matches Err(FonError::Parse(e)) && e@ == m,
            Err(Failure::Aborts) => false,
        }
    }
}

/// The lines of a text cut in three at line ends: those before, those of
/// the middle part, and those after.
proof fn lemma_split_lines(c: Seq<u8>, s: int, e: int)
    requires
        0 <= s <= e <= c.len(),
        s == 0 || c[s - 1] == 10,
        e == c.len() || (s < e && c[e - 1] == 10),
    ensures
        text_lines(c) == text_lines(c.subrange(0, s)) + text_lines(c.subrange(s, e)) + text_lines(
            c.subrange(e, c.len() as int),
        ),
        c == c.subrange(0, s) + c.subrange(s, e) + c.subrange(e, c.len() as int),
{
    let pre = c.subrange(0, s);
    let mid = c.subrange(s, e);
    let post = c.subrange(e, c.len() as int);
    assert(c =~= pre + mid + post);
    if e < c.len() {
        assert(mid[mid.len() - 1] == c[e - 1]);
        lemma_text_lines_concat(mid, post);
    } else {
        assert(post =~= Seq::<u8>::empty());
        assert(mid + post =~= mid);
        assert(text_lines(post) =~= Seq::<Seq<u8>>::empty());
    }
    if s > 0 {
        assert(pre[pre.len() - 1] == c[s - 1]);
        lemma_text_lines_concat(pre, mid + post);
        assert(pre + (mid + post) =~= c);
    } else {
        assert(pre =~= Seq::<u8>::empty());
        assert(pre + (mid + post) =~= mid + post);
        assert(text_lines(pre) =~= Seq::<Seq<u8>>::empty());
    }
    assert(text_lines(pre) + (text_lines(mid) + text_lines(post)) =~= text_lines(pre) + text_lines(
        mid,
    ) + text_lines(post));
}

/// Where chunk `k` starts and ends: at line ends.
proof fn lemma_chunk_at(c: Seq<u8>, b: Seq<(usize, usize)>, k: int)
    requires
        chunks_ok(c, b),
        0 <= k < b.len(),
    ensures
        0 <= b[k].0 <= b[k].1 <= c.len(),
        b[k].0 == 0 || c[b[k].0 - 1] == 10,
        b[k].1 == c.len() || (b[k].0 < b[k].1 && c[b[k].1 - 1] == 10),
{
    assert(b[k].0 <= b[k].1 <= c.len());
    if k > 0 {
        assert(b[k - 1].1 == b[k].0 && c[b[k - 1].1 - 1] == 10);
    }
    if k < b.len() - 1 {
        assert(b[k].0 < b[k].1 && c[b[k].1 - 1] == 10);
    }
}

/// `rayon::current_num_threads`: the number of threads of the current thread
/// pool. Nothing is stated of it: it depends on the machine.
#[verifier::external_body]
fn worker_count() -> usize {
    rayon::current_num_threads()
}

/// `rayon`'s `par_iter`, `map` and `collect` into a `Vec` over the chunks:
/// `parse_chunk` on each, collected in chunk order (collecting an indexed
/// parallel iterator into a `Vec` keeps its order). Its contract is
/// `parse_chunk`'s, chunk by chunk.
#[verifier::external_body]
fn parse_chunks(content: &[u8], bounds: &[(usize, usize)], opts: &DeserializeOptions) -> (r: Vec<
    Result<Vec<FonCollection>, FonError>,
>)
    requires
        forall|i: int|
            0 <= i < bounds@.len() ==> (#[trigger] bounds@[i]).0 <= bounds@[i].1 <= content@.len()
                && no_line_aborts(
                content@.subrange(bounds@[i].0 as int, bounds@[i].1 as int),
                *opts,
            ),
    ensures
        r@.len() == bounds@.len(),
        forall|i: int|
            0 <= i < bounds@.len() ==> chunk_read(
                content@.subrange(bounds@[i].0 as int, bounds@[i].1 as int),
                *opts,
                #[trigger] r@[i],
            ),
{
    bounds.par_iter().map(|&(start, end)| parse_chunk(content, start, end, opts)).collect()
}

/// The size that a chunk of a dump aims at (1 MiB).
const TARGET_CHUNK: usize = 1048576;

/// Where chunk `k` starts, and where the text read so far ends after `k`
/// chunks.
spec fn chunk_start(b: Seq<(usize, usize)>, k: int) -> int {
    if k == 0 {
        0
    } else {
        b[k - 1].1 as int
    }
}

/// The lines of a chunk have no aborting line when the whole text has none.
proof fn lemma_chunk_no_aborts(c: Seq<u8>, b: Seq<(usize, usize)>, k: int, opts: DeserializeOptions)
    requires
        chunks_ok(c, b),
        0 <= k < b.len(),
        no_line_aborts(c, opts),
    ensures
        no_line_aborts(c.subrange(b[k].0 as int, b[k].1 as int), opts),
{
    lemma_chunk_at(c, b, k);
    lemma_split_lines(c, b[k].0 as int, b[k].1 as int);
    let a = text_lines(c.subrange(0, b[k].0 as int));
    let m = text_lines(c.subrange(b[k].0 as int, b[k].1 as int));
    assert forall|j: int| 0 <= j < m.len() && valid_utf8(m[j]) implies !(#[trigger] read_fields(
        m[j],
        0,
        opts,
    ) matches Err(Failure::Aborts)) by {
        assert(text_lines(c)[a.len() + j] == m[j]);
    }
}

/// Reading one more chunk whose lines read: the text read so far grows by
/// the chunk, and its records by the chunk's records.
#[verifier::rlimit(30)]
proof fn lemma_chunk_read_ok(
    c: Seq<u8>,
    b: Seq<(usize, usize)>,
    k: int,
    opts: DeserializeOptions,
    got: Seq<Seq<(Seq<char>, ValueModel)>>,
    more: Seq<Seq<(Seq<char>, ValueModel)>>,
)
    requires
        chunks_ok(c, b),
        0 <= k < b.len(),
        valid_utf8(c.subrange(0, chunk_start(b, k))),
        read_records(text_lines(c.subrange(0, chunk_start(b, k))), opts) == Ok::<
            Seq<Seq<(Seq<char>, ValueModel)>>,
            Failure,
        >(got),
        valid_utf8(c.subrange(b[k].0 as int, b[k].1 as int)),
        read_records(text_lines(c.subrange(b[k].0 as int, b[k].1 as int)), opts) == Ok::<
            Seq<Seq<(Seq<char>, ValueModel)>>,
            Failure,
        >(more),
    ensures
        valid_utf8(c.subrange(0, chunk_start(b, k + 1))),
        read_records(text_lines(c.subrange(0, chunk_start(b, k + 1))), opts) == Ok::<
            Seq<Seq<(Seq<char>, ValueModel)>>,
            Failure,
        >(got + more),
{
    lemma_chunk_at(c, b, k);
    let s0 = b[k].0 as int;
    let e0 = b[k].1 as int;
    assert(chunk_start(b, k) == s0);
    let pre = c.subrange(0, s0);
    let mid = c.subrange(s0, e0);
    assert(c.subrange(0, e0) =~= pre + mid);
    assert(chunk_start(b, k + 1) == e0);
    vstd::utf8::valid_utf8_concat(pre, mid);
    if s0 > 0 {
        assert(pre[pre.len() - 1] == c[s0 - 1]);
        lemma_text_lines_concat(pre, mid);
    } else {
        assert(pre =~= Seq::<u8>::empty());
        assert(pre + mid =~= mid);
        assert(text_lines(pre) =~= Seq::<Seq<u8>>::empty());
        assert(text_lines(pre) + text_lines(mid) =~= text_lines(mid));
    }
    lemma_read_records_concat(text_lines(pre), text_lines(mid), opts);
}

/// A chunk that is valid UTF-8 and whose lines fail, after chunks that read:
/// the text up to the chunk's end fails as the chunk does.
proof fn lemma_chunk_read_early(
    c: Seq<u8>,
    b: Seq<(usize, usize)>,
    k: int,
    opts: DeserializeOptions,
    got: Seq<Seq<(Seq<char>, ValueModel)>>,
    m: Seq<char>,
)
    requires
        chunks_ok(c, b),
        0 <= k < b.len(),
        !valid_utf8(c),
        valid_utf8(c.subrange(0, chunk_start(b, k))),
        read_records(text_lines(c.subrange(0, chunk_start(b, k))), opts) == Ok::<
            Seq<Seq<(Seq<char>, ValueModel)>>,
            Failure,
        >(got),
        valid_utf8(c.subrange(b[k].0 as int, b[k].1 as int)),
        read_records(text_lines(c.subrange(b[k].0 as int, b[k].1 as int)), opts) == Err::<
            Seq<Seq<(Seq<char>, ValueModel)>>,
            Failure,
        >(Failure::Error(m)),
    ensures
        early_line_error(c, opts, m),
{
    lemma_chunk_at(c, b, k);
    let s0 = b[k].0 as int;
    let e0 = b[k].1 as int;
    assert(chunk_start(b, k) == s0);
    let pre = c.subrange(0, s0);
    let mid = c.subrange(s0, e0);
    if mid.len() == 0 {
        assert(text_lines(mid) =~= Seq::<Seq<u8>>::empty());
    }
    assert(c.subrange(0, e0) =~= pre + mid);
    vstd::utf8::valid_utf8_concat(pre, mid);
    if e0 == c.len() {
        assert(c.subrange(0, e0) =~= c);
    }
    if s0 > 0 {
        assert(pre[pre.len() - 1] == c[s0 - 1]);
        lemma_text_lines_concat(pre, mid);
    } else {
        assert(pre =~= Seq::<u8>::empty());
        assert(pre + mid =~= mid);
        assert(text_lines(pre) =~= Seq::<Seq<u8>>::empty());
        assert(text_lines(pre) + text_lines(mid) =~= text_lines(mid));
    }
    lemma_read_records_concat(text_lines(pre), text_lines(mid), opts);
    assert(0 < e0 < c.len() && c[e0 - 1] == 10 && valid_utf8(c.subrange(0, e0)));
}

/// A chunk that fails: when the whole text is valid UTF-8, the chunk is too,
/// and the text's lines fail as the chunk's do.
proof fn lemma_chunk_read_err(
    c: Seq<u8>,
    b: Seq<(usize, usize)>,
    k: int,
    opts: DeserializeOptions,
    got: Seq<Seq<(Seq<char>, ValueModel)>>,
)
    requires
        chunks_ok(c, b),
        0 <= k < b.len(),
        read_records(text_lines(c.subrange(0, chunk_start(b, k))), opts) == Ok::<
            Seq<Seq<(Seq<char>, ValueModel)>>,
            Failure,
        >(got),
    ensures
        valid_utf8(c) ==> valid_utf8(c.subrange(b[k].0 as int, b[k].1 as int)),
        read_records(text_lines(c.subrange(b[k].0 as int, b[k].1 as int)), opts) is Err
            ==> read_records(text_lines(c), opts) == read_records(
            text_lines(c.subrange(b[k].0 as int, b[k].1 as int)),
            opts,
        ),
{
    lemma_chunk_at(c, b, k);
    let s0 = b[k].0 as int;
    let e0 = b[k].1 as int;
    assert(chunk_start(b, k) == s0);
    let pre = c.subrange(0, s0);
    let mid = c.subrange(s0, e0);
    let post = c.subrange(e0, c.len() as int);
    lemma_split_lines(c, s0, e0);
    if valid_utf8(c) {
        if s0 > 0 {
            assert(pre[pre.len() - 1] == c[s0 - 1]);
            assert(c =~= pre + (mid + post));
            lemma_split_after_ascii(pre, mid + post);
        } else {
            assert(mid + post =~= c);
        }
        if e0 < c.len() {
            assert(mid[mid.len() - 1] == c[e0 - 1]);
            lemma_split_after_ascii(mid, post);
        } else {
            assert(mid + post =~= mid);
        }
    }
    lemma_read_records_concat(text_lines(pre) + text_lines(mid), text_lines(post), opts);
    lemma_read_records_concat(text_lines(pre), text_lines(mid), opts);
}

/// Reads a dump: one record per line, after an optional UTF-8 byte-order
/// mark, parsed in parallel in chunks of whole lines (see `dump_read`). No
/// line that is valid UTF-8 may hold a raw payload, to be unpacked, whose Z85
/// text the decoder does not handle.
pub fn deserialize_dump_from_bytes(content: &[u8], _max_threads: i32, opts: &DeserializeOptions) -> (r:
    Result<FonDump, FonError>)
    requires
        no_line_aborts(strip_bom(content@), *opts),
    ensures
        dump_read(strip_bom(content@), *opts, r),
        strip_bom(content@).len() > 0 && r is Ok ==> r->Ok_0.is_dense(),
{
    let data = if content.len() >= 3 && content[0] == 0xEF && content[1] == 0xBB && content[2]
        == 0xBF {
        slice_subrange(content, 3, content.len())
    } else {
        content
    };
    let ghost c = data@;
    if data.len() == 0 {
        return Ok(FonDump::new());
    }
    let workers = worker_count();
    let workers = if workers < 1 {
        1
    } else {
        workers
    };
    let by_size = data.len() / TARGET_CHUNK;
    let chunk_count = if by_size > workers {
        by_size
    } else {
        workers
    };
    let bounds = chunk_bounds(data, chunk_count);
    let ghost b = bounds@;
    proof {
        assert forall|i: int| 0 <= i < b.len() implies (#[trigger] b[i]).0 <= b[i].1 <= c.len()
            && no_line_aborts(c.subrange(b[i].0 as int, b[i].1 as int), *opts) by {
            lemma_chunk_no_aborts(c, b, i, *opts);
        }
    }
    let parts = parse_chunks(data, bounds.as_slice(), opts);
    let ghost ps = parts@;
    let mut records: Vec<FonCollection> = Vec::new();
    proof {
        assert(c.subrange(0, 0) =~= Seq::<u8>::empty());
        assert(text_lines(c.subrange(0, 0)) =~= Seq::<Seq<u8>>::empty());
        assert(records_of(records@) =~= Seq::<Seq<(Seq<char>, ValueModel)>>::empty());
        crate::text::lemma_ascii_valid_utf8(Seq::<u8>::empty());
    }
    for part in it: parts.into_iter()
        invariant
            c == data@,
            c == strip_bom(content@),
            c.len() > 0,
            chunks_ok(c, b),
            ps.len() == b.len(),
            it.seq() == ps,
            forall|i: int|
                0 <= i < b.len() ==> chunk_read(
                    c.subrange(b[i].0 as int, b[i].1 as int),
                    *opts,
                    #[trigger] ps[i],
                ),
            0 <= it.index() <= b.len(),
            valid_utf8(c.subrange(0, chunk_start(b, it.index()))),
            read_records(text_lines(c.subrange(0, chunk_start(b, it.index()))), *opts) == Ok::<
                Seq<Seq<(Seq<char>, ValueModel)>>,
                Failure,
            >(records_of(records@)),
    {
        let ghost k = it.index();
        proof {
            lemma_chunk_at(c, b, k);
            assert(chunk_start(b, k) == b[k].0);
        }
        match part {
            Ok(mut v) => {
                let ghost before = records@;
                let ghost vm = v@;
                records.append(&mut v);
                proof {
                    lemma_chunk_read_ok(c, b, k, *opts, records_of(before), records_of(vm));
                    assert(records_of(records@) =~= records_of(before) + records_of(vm));
                }
            },
            Err(e) => {
                proof {
                    lemma_chunk_read_err(c, b, k, *opts, records_of(records@));
                    let mid = c.subrange(b[k].0 as int, b[k].1 as int);
                    assert(chunk_read(mid, *opts, ps[k]));
                    assert(ps[k] == Err::<Vec<FonCollection>, FonError>(e));
                    if valid_utf8(c) {
                        assert(valid_utf8(mid));
                        assert(read_records(text_lines(mid), *opts) is Err);
                    } else if valid_utf8(mid) {
                        let m = e->Parse_0@;
                        lemma_chunk_read_early(c, b, k, *opts, records_of(records@), m);
                    }
                }
                return Err(e);
            },
        }
    }
    proof {
        assert(chunk_start(b, b.len() as int) == c.len());
        assert(c.subrange(0, c.len() as int) =~= c);
    }
    let dump = FonDump::from_records(records);
    proof {
        assert(dump@ =~= records_map(records_of(records@)));
    }
    Ok(dump)
}

/// Whether no line of a dump's text (after an optional byte-order mark)
/// that is valid UTF-8 holds a raw payload, to be unpacked, whose Z85 text
/// the decoder does not handle: what `deserialize_dump_from_bytes` requires.
pub fn dump_is_readable(content: &[u8], opts: &DeserializeOptions) -> (r: bool)
    ensures
        r == no_line_aborts(strip_bom(content@), *opts),
{
    let data = if content.len() >= 3 && content[0] == 0xEF && content[1] == 0xBB && content[2]
        == 0xBF {
        slice_subrange(content, 3, content.len())
    } else {
        content
    };
    let ghost all = text_lines(data@);
    let len = data.len();
    let mut pos: usize = 0;
    let ghost mut done: Seq<Seq<u8>> = Seq::empty();
    proof {
        assert(data@.subrange(0, len as int) =~= data@);
        assert(Seq::<Seq<u8>>::empty() + all =~= all);
    }
    while pos < len
        invariant
            len == data@.len(),
            data@ == strip_bom(content@),
            pos <= len,
            all == text_lines(data@),
            all == done + text_lines(data@.subrange(pos as int, len as int)),
            forall|i: int|
                0 <= i < done.len() && valid_utf8(done[i]) ==> !(#[trigger] read_fields(
                    done[i],
                    0,
                    *opts,
                ) matches Err(Failure::Aborts)),
        decreases len - pos,
    {
        let rem = slice_subrange(data, pos, len);
        proof {
            lemma_line_end_from(rem@, 0);
        }
        let (end, next) = match find_line_end(rem) {
            Some(rel) => {
                let nl = pos + rel;
                proof {
                    lemma_text_lines_step(rem@, rel as int);
                    assert(rem@[rel as int] == data@[nl as int]);
                    if rel + 1 < rem@.len() {
                        assert(rem@[rel + 1] == data@[nl + 1]);
                    }
                }
                let next = if data[nl] == 13 && nl + 1 < len && data[nl + 1] == 10 {
                    nl + 2
                } else {
                    nl + 1
                };
                proof {
                    assert(next - pos == after_line_end(rem@, rel as int));
                    assert(rem@.subrange(next - pos, rem@.len() as int) =~= data@.subrange(
                        next as int,
                        len as int,
                    ));
                    if nl > pos {
                        assert(rem@.subrange(0, rel as int) =~= data@.subrange(pos as int, nl as int));
                    }
                    assert(text_lines(rem@) =~= (if nl > pos {
                        seq![data@.subrange(pos as int, nl as int)]
                    } else {
                        Seq::<Seq<u8>>::empty()
                    }) + text_lines(data@.subrange(next as int, len as int)));
                }
                (nl, next)
            },
            None => {
                proof {
                    assert(data@.subrange(len as int, len as int) =~= Seq::<u8>::empty());
                    assert(text_lines(Seq::<u8>::empty()) =~= Seq::<Seq<u8>>::empty());
                    assert(rem@ =~= data@.subrange(pos as int, len as int));
                    assert(text_lines(rem@) =~= seq![data@.subrange(pos as int, len as int)]
                        + text_lines(data@.subrange(len as int, len as int)));
                }
                (len, len)
            },
        };
        proof {
            if end <= pos {
                assert(Seq::<Seq<u8>>::empty() + text_lines(data@.subrange(next as int, len as int))
                    =~= text_lines(data@.subrange(next as int, len as int)));
            }
        }
        if end > pos {
            let line = slice_subrange(data, pos, end);
            proof {
                let rest = text_lines(data@.subrange(next as int, len as int));
                assert(all =~= done.push(line@) + rest);
                assert(all[done.len() as int] == line@);
            }
            if is_valid_utf8(line) {
                if let Err(Fault::Aborts) = parse_collection_body(line, 0, opts) {
                    proof {
                        assert(read_fields(all[done.len() as int], 0, *opts) matches Err(
                            Failure::Aborts,
                        ));
                    }
                    return false;
                }
            }
            proof {
                done = done.push(line@);
            }
        }
        pos = next;
    }
    proof {
        assert(data@.subrange(pos as int, len as int) =~= Seq::<u8>::empty());
        assert(text_lines(Seq::<u8>::empty()) =~= Seq::<Seq<u8>>::empty());
        assert(done + Seq::<Seq<u8>>::empty() =~= done);
    }
    true
}

} // verus!
