//! Deserialization: reading one frame from the front of a byte sequence.
//! `spec_parse` is the mathematical reading rule; `Frame::parse` follows it
//! exactly. The rule distinguishes "not enough bytes yet" from structurally
//! invalid input, and reports how many bytes a complete frame consumed.
use vstd::prelude::*;
use crate::frame::{Frame, FrameView, views_of, lemma_views_of, encode, encode_all, wf};
use crate::scan::{
    CR, LF, crlf_at, contains_crlf, find_crlf, lemma_find_crlf, find_crlf_from, is_utf8,
    check_utf8, i64_text_val, usize_text_val, parse_i64_bytes, parse_usize_bytes, copy_range,
    is_digit, is_digits, digits_val, int_text, dec_digits, lemma_find_crlf_of_line,
    lemma_find_crlf_partial_line, lemma_dec_digits, lemma_digits_no_crlf, lemma_int_text_no_crlf,
    lemma_int_text_val, lemma_len_text_val,
};

verus! {

/// Outcome of reading one frame from the front of a byte sequence: a frame
/// together with the count of bytes it occupied, or a request for more
/// bytes, or a report that the input can never begin a frame.
pub enum SpecParse {
    Complete { frame: FrameView, len: int },
    Incomplete,
    Malformed,
}

/// Outcome of reading a run of consecutive frames.
pub enum SpecParseRun {
    Complete { frames: Seq<FrameView>, len: int },
    Incomplete,
    Malformed,
}

/// The reading rule, dispatched on the first byte. Line-oriented payloads
/// run to the first terminator; length-prefixed payloads take exactly the
/// announced count of raw bytes; an array reads its announced number of
/// elements in sequence, each from the position where the previous ended.
pub open spec fn spec_parse(s: Seq<u8>) -> SpecParse
    decreases s.len(), 0nat, 0nat,
{
    if s.len() == 0 {
        SpecParse::Incomplete
    } else if s[0] == 43 || s[0] == 45 {
        match find_crlf(s.skip(1)) {
            None => SpecParse::Incomplete,
            Some(i) => {
                let line = s.skip(1).take(i);
                if is_utf8(line) {
                    if s[0] == 43 {
                        SpecParse::Complete { frame: FrameView::Simple(line), len: 1 + i + 2 }
                    } else {
                        SpecParse::Complete { frame: FrameView::Error(line), len: 1 + i + 2 }
                    }
                } else {
                    SpecParse::Malformed
                }
            },
        }
    } else if s[0] == 58 {
        match find_crlf(s.skip(1)) {
            None => SpecParse::Incomplete,
            Some(i) => {
                let line = s.skip(1).take(i);
                match i64_text_val(line) {
                    Some(v) => SpecParse::Complete { frame: FrameView::Integer(v), len: 1 + i + 2 },
                    None => SpecParse::Malformed,
                }
            },
        }
    } else if s[0] == 36 {
        match find_crlf(s.skip(1)) {
            None => SpecParse::Incomplete,
            Some(i) => {
                let line = s.skip(1).take(i);
                if line == seq![45u8, 49u8] {
                    SpecParse::Complete { frame: FrameView::Null, len: 1 + i + 2 }
                } else {
                    match usize_text_val(line) {
                        None => SpecParse::Malformed,
                        Some(n) => {
                            let header = 1 + i + 2;
                            if s.len() < header + n + 2 {
                                SpecParse::Incomplete
                            } else if s[header + n] == CR && s[header + n + 1] == LF {
                                SpecParse::Complete {
                                    frame: FrameView::Bulk(s.subrange(header, header + n)),
                                    len: header + n + 2,
                                }
                            } else {
                                SpecParse::Malformed
                            }
                        },
                    }
                }
            },
        }
    } else if s[0] == 42 {
        match find_crlf(s.skip(1)) {
            None => SpecParse::Incomplete,
            Some(i) => {
                let line = s.skip(1).take(i);
                match usize_text_val(line) {
                    None => SpecParse::Malformed,
                    Some(n) => {
                        let header = 1 + i + 2;
                        // the terminator found lies within `s`, so this test
                        // always passes; stating it keeps the recursion on a
                        // strictly shorter suffix by construction
                        if 0 <= i && header <= s.len() {
                            match spec_parse_run(s.skip(header), n) {
                                SpecParseRun::Complete { frames, len } => SpecParse::Complete {
                                    frame: FrameView::Array(frames),
                                    len: header + len,
                                },
                                SpecParseRun::Incomplete => SpecParse::Incomplete,
                                SpecParseRun::Malformed => SpecParse::Malformed,
                            }
                        } else {
                            SpecParse::Malformed
                        }
                    },
                }
            },
        }
    } else {
        SpecParse::Malformed
    }
}

/// Read `n` consecutive frames from the front of `s`. An incomplete or
/// malformed element makes the whole run incomplete or malformed.
pub open spec fn spec_parse_run(s: Seq<u8>, n: int) -> SpecParseRun
    decreases s.len(), 1nat, n,
{
    if n <= 0 {
        SpecParseRun::Complete { frames: Seq::empty(), len: 0 }
    } else {
        match spec_parse(s) {
            SpecParse::Complete { frame, len } => {
                // a complete reading always occupies between one byte and
                // the whole input (`lemma_parse_len`); stating it keeps the
                // recursion on a strictly shorter suffix by construction
                if 0 < len <= s.len() {
                    match spec_parse_run(s.skip(len), n - 1) {
                        SpecParseRun::Complete { frames, len: rest } => SpecParseRun::Complete {
                            frames: seq![frame] + frames,
                            len: len + rest,
                        },
                        SpecParseRun::Incomplete => SpecParseRun::Incomplete,
                        SpecParseRun::Malformed => SpecParseRun::Malformed,
                    }
                } else {
                    SpecParseRun::Malformed
                }
            },
            SpecParse::Incomplete => SpecParseRun::Incomplete,
            SpecParse::Malformed => SpecParseRun::Malformed,
        }
    }
}

/// A complete reading occupies at least one byte, at most the whole input,
/// and yields a frame the wire format can carry.
pub proof fn lemma_parse_len(s: Seq<u8>)
    ensures
        match spec_parse(s) {
            SpecParse::Complete { frame, len } => 1 <= len <= s.len() && wf(frame),
            _ => true,
        },
    decreases s.len(), 0nat, 0nat,
{
    if s.len() == 0 {
    } else if s[0] == 43 || s[0] == 45 {
        match find_crlf(s.skip(1)) {
            None => {},
            Some(i) => {
                lemma_find_crlf(s.skip(1));
                assert(crlf_at(s.skip(1), i));
                assert(1 <= 1 + i + 2 <= s.len());
                lemma_line_no_crlf(s.skip(1), i);
            },
        }
    } else if s[0] == 58 {
        match find_crlf(s.skip(1)) {
            None => {},
            Some(i) => {
                lemma_find_crlf(s.skip(1));
                assert(crlf_at(s.skip(1), i));
                assert(1 <= 1 + i + 2 <= s.len());
            },
        }
    } else if s[0] == 36 {
        match find_crlf(s.skip(1)) {
            None => {},
            Some(i) => {
                lemma_find_crlf(s.skip(1));
                assert(crlf_at(s.skip(1), i));
                assert(1 <= 1 + i + 2 <= s.len());
                let line = s.skip(1).take(i);
                lemma_usize_text_val_nonneg(line);
            },
        }
    } else if s[0] == 42 {
        match find_crlf(s.skip(1)) {
            None => {},
            Some(i) => {
                lemma_find_crlf(s.skip(1));
                assert(crlf_at(s.skip(1), i));
                assert(1 <= 1 + i + 2 <= s.len());
                let line = s.skip(1).take(i);
                match usize_text_val(line) {
                    None => {},
                    Some(n) => {
                        let header = 1 + i + 2;
                        lemma_usize_text_val_nonneg(line);
                        if 0 <= i && header <= s.len() {
                            lemma_parse_run_len(s.skip(header), n);
                        }
                    },
                }
            },
        }
    } else {
    }
}

/// A complete run of `n` readings occupies at most the whole input and
/// yields exactly `n` frames, all of them well-formed.
pub proof fn lemma_parse_run_len(s: Seq<u8>, n: int)
    ensures
        match spec_parse_run(s, n) {
            SpecParseRun::Complete { frames, len } => {
                &&& 0 <= len <= s.len()
                &&& frames.len() == if n <= 0 {
                    0
                } else {
                    n
                }
                &&& forall|k: int| 0 <= k < frames.len() ==> wf(#[trigger] frames[k])
            },
            _ => true,
        },
    decreases s.len(), 1nat, n,
{
    if n <= 0 {
    } else {
        lemma_parse_len(s);
        match spec_parse(s) {
            SpecParse::Complete { frame, len } => {
                if 0 < len <= s.len() {
                    lemma_parse_run_len(s.skip(len), n - 1);
                    match spec_parse_run(s.skip(len), n - 1) {
                        SpecParseRun::Complete { frames, len: rest } => {
                            let all = seq![frame] + frames;
                            assert(all[0] == frame);
                            assert forall|k: int| 0 <= k < all.len() implies wf(
                                #[trigger] all[k],
                            ) by {
                                if k > 0 {
                                    assert(all[k] == frames[k - 1]);
                                }
                            }
                        },
                        _ => {},
                    }
                }
            },
            _ => {},
        }
    }
}

/// The text before the first terminator holds no terminator.
proof fn lemma_line_no_crlf(u: Seq<u8>, i: int)
    requires
        find_crlf(u) == Some(i),
    ensures
        !contains_crlf(u.take(i)),
{
    lemma_find_crlf(u);
    let line = u.take(i);
    assert forall|j: int| !crlf_at(line, j) by {
        if 0 <= j && j + 2 <= line.len() {
            assert(line[j] == u[j]);
            assert(line[j + 1] == u[j + 1]);
            assert(!crlf_at(u, j));
        }
    }
}

/// Outcome of `Frame::parse`: a frame with the count of bytes it consumed,
/// a request for more bytes, or a report of structurally invalid input.
#[derive(Debug, PartialEq, Eq)]
pub enum ParseResult {
    Complete(Frame, usize),
    Incomplete,
    Malformed,
}

/// The executable outcome agrees with the reading rule's outcome.
pub open spec fn result_matches(r: ParseResult, m: SpecParse) -> bool {
    match m {
        SpecParse::Complete { frame, len } => r matches ParseResult::Complete(f, l) && f@ == frame
            && l as int == len,
        SpecParse::Incomplete => r is Incomplete,
        SpecParse::Malformed => r is Malformed,
    }
}

/// A partial run already read composes with the outcome on the remaining
/// bytes to the outcome of the whole run.
pub open spec fn run_step(
    total: SpecParseRun,
    done: Seq<FrameView>,
    used: int,
    rest: SpecParseRun,
) -> bool {
    match rest {
        SpecParseRun::Complete { frames, len } => total == (SpecParseRun::Complete {
            frames: done + frames,
            len: used + len,
        }),
        SpecParseRun::Incomplete => total is Incomplete,
        SpecParseRun::Malformed => total is Malformed,
    }
}

impl Frame {
    /// Read one frame from the front of `bytes`. On `Complete` the reported
    /// count is how many leading bytes the frame occupied; bytes beyond it
    /// are untouched and do not affect the outcome.
    pub fn parse(bytes: &Vec<u8>) -> (r: ParseResult)
        ensures
            result_matches(r, spec_parse(bytes@)),
    {
        proof {
            assert(bytes@.skip(0) =~= bytes@);
        }
        Frame::parse_at(bytes, 0)
    }

    /// Read one frame from `bytes` starting at position `from`.
    pub fn parse_at(bytes: &Vec<u8>, from: usize) -> (r: ParseResult)
        requires
            from <= bytes@.len(),
        ensures
            result_matches(r, spec_parse(bytes@.skip(from as int))),
        decreases bytes@.len() - from, 1nat,
    {
        let ghost s: Seq<u8> = bytes@.skip(from as int);
        if from == bytes.len() {
            return ParseResult::Incomplete;
        }
        let sigil = bytes[from];
        proof {
            assert(s[0] == bytes@[from as int]);
        }
        if sigil == 43 || sigil == 45 || sigil == 58 {
            parse_text_at(bytes, from)
        } else if sigil == 36 {
            parse_bulk_at(bytes, from)
        } else if sigil == 42 {
            parse_array_at(bytes, from)
        } else {
            ParseResult::Malformed
        }
    }
}

/// Read a line frame (simple text, error text, or integer) at `from`.
fn parse_text_at(bytes: &Vec<u8>, from: usize) -> (r: ParseResult)
    requires
        from < bytes@.len(),
        bytes@[from as int] == 43 || bytes@[from as int] == 45 || bytes@[from as int] == 58,
    ensures
        result_matches(r, spec_parse(bytes@.skip(from as int))),
{
    let ghost s: Seq<u8> = bytes@.skip(from as int);
    let n_total = bytes.len();
    let sigil = bytes[from];
    proof {
        assert(n_total == bytes@.len());
        assert(s[0] == bytes@[from as int]);
        assert(bytes@.skip(from + 1) =~= s.skip(1));
    }
    let i = match find_crlf_from(bytes, from + 1) {
        Some(i) => i,
        None => {
            return ParseResult::Incomplete;
        },
    };
    let lo = from + 1;
    let hi = from + 1 + i;
    proof {
        assert(s.skip(1).take(i as int) =~= bytes@.subrange(lo as int, hi as int));
    }
    if sigil == 58 {
        match parse_i64_bytes(bytes, lo, hi) {
            Some(v) => ParseResult::Complete(Frame::Integer(v), i + 3),
            None => ParseResult::Malformed,
        }
    } else {
        if !check_utf8(bytes, lo, hi) {
            return ParseResult::Malformed;
        }
        let content = copy_range(bytes, lo, hi);
        if sigil == 43 {
            ParseResult::Complete(Frame::Simple(content), i + 3)
        } else {
            ParseResult::Complete(Frame::Error(content), i + 3)
        }
    }
}

/// Read a length-prefixed frame (bulk bytes or the null marker) at `from`.
fn parse_bulk_at(bytes: &Vec<u8>, from: usize) -> (r: ParseResult)
    requires
        from < bytes@.len(),
        bytes@[from as int] == 36,
    ensures
        result_matches(r, spec_parse(bytes@.skip(from as int))),
{
    let ghost s: Seq<u8> = bytes@.skip(from as int);
    let n_total = bytes.len();
    proof {
        assert(s[0] == bytes@[from as int]);
        assert(bytes@.skip(from + 1) =~= s.skip(1));
    }
    let i = match find_crlf_from(bytes, from + 1) {
        Some(i) => i,
        None => {
            return ParseResult::Incomplete;
        },
    };
    let lo = from + 1;
    let hi = from + 1 + i;
    let ghost line: Seq<u8> = s.skip(1).take(i as int);
    proof {
        assert(line =~= bytes@.subrange(lo as int, hi as int));
    }
    if i == 2 && bytes[lo] == 45 && bytes[lo + 1] == 49 {
        proof {
            assert(line[0] == bytes@[lo as int]);
            assert(line[1] == bytes@[lo + 1]);
            assert(line =~= seq![45u8, 49u8]);
        }
        return ParseResult::Complete(Frame::Null, i + 3);
    }
    proof {
        if line == seq![45u8, 49u8] {
            assert(line.len() == 2);
            assert(line[0] == bytes@[lo as int]);
            assert(line[1] == bytes@[lo + 1]);
            assert(false);
        }
    }
    let count = match parse_usize_bytes(bytes, lo, hi) {
        Some(c) => c,
        None => {
            return ParseResult::Malformed;
        },
    };
    let p0 = hi + 2;
    let avail = n_total - p0;
    proof {
        assert(s.len() == n_total - from);
    }
    if avail < count || avail - count < 2 {
        return ParseResult::Incomplete;
    }
    proof {
        assert(s[1 + i + 2 + count] == bytes@[(p0 + count) as int]);
        assert(s[1 + i + 2 + count + 1] == bytes@[(p0 + count + 1) as int]);
    }
    if bytes[p0 + count] == CR && bytes[p0 + count + 1] == LF {
        let payload = copy_range(bytes, p0, p0 + count);
        proof {
            assert(s.subrange(1 + i + 2, 1 + i + 2 + count as int) =~= bytes@.subrange(
                p0 as int,
                (p0 + count) as int,
            ));
        }
        ParseResult::Complete(Frame::Bulk(payload), i + 3 + count + 2)
    } else {
        ParseResult::Malformed
    }
}

/// Read an array frame at `from`: the element count line, then that many
/// frames in sequence, each from where the previous one ended.
#[verifier::loop_isolation(false)]
fn parse_array_at(bytes: &Vec<u8>, from: usize) -> (r: ParseResult)
    requires
        from < bytes@.len(),
        bytes@[from as int] == 42,
    ensures
        result_matches(r, spec_parse(bytes@.skip(from as int))),
    decreases bytes@.len() - from, 0nat,
{
    let ghost s: Seq<u8> = bytes@.skip(from as int);
    let n_total = bytes.len();
    proof {
        assert(s[0] == bytes@[from as int]);
        assert(bytes@.skip(from + 1) =~= s.skip(1));
    }
    let i = match find_crlf_from(bytes, from + 1) {
        Some(i) => i,
        None => {
            return ParseResult::Incomplete;
        },
    };
    let lo = from + 1;
    let hi = from + 1 + i;
    proof {
        assert(s.skip(1).take(i as int) =~= bytes@.subrange(lo as int, hi as int));
    }
    let count = match parse_usize_bytes(bytes, lo, hi) {
        Some(c) => c,
        None => {
            return ParseResult::Malformed;
        },
    };
    let p0 = hi + 2;
    let ghost header: int = 1 + i + 2;
    let ghost s_run: Seq<u8> = bytes@.skip(p0 as int);
    let ghost total: SpecParseRun = spec_parse_run(s_run, count as int);
    proof {
        assert(s_run =~= s.skip(header));
        assert(header <= s.len());
    }
    let mut elems: Vec<Frame> = Vec::new();
    let mut pos = p0;
    let mut k: usize = 0;
    proof {
        assert(views_of(elems@) =~= Seq::<FrameView>::empty());
        match total {
            SpecParseRun::Complete { frames, len } => {
                assert(Seq::<FrameView>::empty() + frames =~= frames);
            },
            _ => {},
        }
    }
    while k < count
        invariant
            p0 <= pos <= n_total,
            k <= count,
            run_step(
                total,
                views_of(elems@),
                pos - p0,
                spec_parse_run(bytes@.skip(pos as int), count - k),
            ),
        decreases count - k,
    {
        let ghost rest_s: Seq<u8> = bytes@.skip(pos as int);
        let ghost done: Seq<FrameView> = views_of(elems@);
        let r = Frame::parse_at(bytes, pos);
        match r {
            ParseResult::Complete(f, l) => {
                proof {
                    lemma_parse_len(rest_s);
                }
                let ghost fv: FrameView = f@;
                let ghost prev_elems: Seq<Frame> = elems@;
                elems.push(f);
                pos = pos + l;
                k = k + 1;
                proof {
                    assert(elems@.last()@ == fv);
                    assert(elems@.drop_last() =~= prev_elems);
                    assert(views_of(elems@) == views_of(prev_elems).push(fv));
                    assert(views_of(elems@) =~= done.push(fv));
                    assert(bytes@.skip(pos as int) =~= rest_s.skip(l as int));
                    match spec_parse_run(bytes@.skip(pos as int), count - k) {
                        SpecParseRun::Complete { frames, len } => {
                            assert(done.push(fv) + frames =~= done + (seq![fv] + frames));
                        },
                        _ => {},
                    }
                }
            },
            ParseResult::Incomplete => {
                return ParseResult::Incomplete;
            },
            ParseResult::Malformed => {
                return ParseResult::Malformed;
            },
        }
    }
    proof {
        assert(spec_parse_run(bytes@.skip(pos as int), 0) == (SpecParseRun::Complete {
            frames: Seq::<FrameView>::empty(),
            len: 0,
        }));
        match total {
            SpecParseRun::Complete { frames, len } => {
                assert(views_of(elems@) + Seq::<FrameView>::empty() =~= views_of(elems@));
            },
            _ => {},
        }
        assert(total == (SpecParseRun::Complete {
            frames: views_of(elems@),
            len: pos - p0,
        }));
    }
    ParseResult::Complete(Frame::Array(elems), pos - from)
}

/// A well-formed frame's encoding, followed by any further bytes, reads back
/// as exactly that frame, consuming exactly its own bytes: the reading rule
/// tolerates trailing noise and leaves it in place.
pub proof fn lemma_parse_encode(f: FrameView, extra: Seq<u8>)
    requires
        wf(f),
    ensures
        spec_parse(encode(f) + extra) == (SpecParse::Complete {
            frame: f,
            len: encode(f).len() as int,
        }),
    decreases f,
{
    let s = encode(f) + extra;
    match f {
        FrameView::Simple(c) => {
            assert(s[0] == 43);
            assert(s.skip(1) =~= c + seq![CR, LF] + extra);
            lemma_find_crlf_of_line(c, extra);
            assert(s.skip(1).take(c.len() as int) =~= c);
        },
        FrameView::Error(c) => {
            assert(s[0] == 45);
            assert(s.skip(1) =~= c + seq![CR, LF] + extra);
            lemma_find_crlf_of_line(c, extra);
            assert(s.skip(1).take(c.len() as int) =~= c);
        },
        FrameView::Integer(n) => {
            let body = int_text(n);
            assert(s[0] == 58);
            assert(s.skip(1) =~= body + seq![CR, LF] + extra);
            lemma_int_text_no_crlf(n);
            lemma_find_crlf_of_line(body, extra);
            assert(s.skip(1).take(body.len() as int) =~= body);
            lemma_int_text_val(n);
        },
        FrameView::Null => {
            let marker = seq![45u8, 49u8];
            assert(s[0] == 36);
            assert(s.skip(1) =~= marker + seq![CR, LF] + extra);
            assert forall|j: int| !crlf_at(marker, j) by {
                if 0 <= j && j + 2 <= marker.len() {
                    assert(marker[0] == 45);
                }
            }
            lemma_find_crlf_of_line(marker, extra);
            assert(s.skip(1).take(2) =~= marker);
            assert(encode(f).len() == 5);
        },
        FrameView::Bulk(b) => {
            lemma_parse_encode_bulk(b, extra);
        },
        FrameView::Array(v) => {
            let digits = dec_digits(v.len());
            let i: int = digits.len() as int;
            let header: int = 1 + i + 2;
            assert(s[0] == 42);
            lemma_dec_digits(v.len());
            assert(s.skip(1) =~= digits + seq![CR, LF] + (encode_all(v) + extra));
            lemma_digits_no_crlf(digits);
            lemma_find_crlf_of_line(digits, encode_all(v) + extra);
            let line = s.skip(1).take(i);
            assert(line =~= digits);
            lemma_len_text_val(v.len());
            assert(usize_text_val(line) == Some(v.len() as int));
            assert(header <= s.len());
            assert(s.skip(header) =~= encode_all(v) + extra);
            lemma_parse_encode_run(v, extra);
            assert(encode(f).len() == header + encode_all(v).len());
        },
    }
}

/// The encodings of a run of well-formed frames, followed by any further
/// bytes, read back as exactly those frames in order.
pub proof fn lemma_parse_encode_run(v: Seq<FrameView>, extra: Seq<u8>)
    requires
        forall|k: int| 0 <= k < v.len() ==> wf(#[trigger] v[k]),
    ensures
        spec_parse_run(encode_all(v) + extra, v.len() as int) == (SpecParseRun::Complete {
            frames: v,
            len: encode_all(v).len() as int,
        }),
    decreases v,
{
    let s = encode_all(v) + extra;
    if v.len() == 0 {
        assert(encode_all(v).len() == 0);
        assert(spec_parse_run(s, 0) == (SpecParseRun::Complete {
            frames: Seq::<FrameView>::empty(),
            len: 0,
        }));
        assert(Seq::<FrameView>::empty() =~= v);
    } else {
        let first = v[0];
        let rest = v.drop_first();
        let rest_enc = encode_all(rest) + extra;
        assert(wf(first));
        assert(s =~= encode(first) + rest_enc);
        lemma_parse_encode(first, rest_enc);
        let l0: int = encode(first).len() as int;
        lemma_parse_len(s);
        assert(1 <= l0 <= s.len());
        assert(s.skip(l0) =~= rest_enc);
        assert forall|k: int| 0 <= k < rest.len() implies wf(#[trigger] rest[k]) by {
            assert(rest[k] == v[k + 1]);
        }
        lemma_parse_encode_run(rest, extra);
        assert(spec_parse_run(s, v.len() as int) == (SpecParseRun::Complete {
            frames: seq![first] + rest,
            len: l0 + encode_all(rest).len(),
        }));
        assert(seq![first] + rest =~= v);
        assert(encode_all(v).len() == l0 + encode_all(rest).len());
    }
}

/// Cutting a well-formed frame's encoding anywhere before its end reads as
/// "not enough bytes yet", never as a frame and never as malformed input.
pub proof fn lemma_parse_prefix(f: FrameView, cut: int)
    requires
        wf(f),
        0 <= cut < encode(f).len(),
    ensures
        spec_parse(encode(f).take(cut)) is Incomplete,
    decreases f,
{
    let p = encode(f).take(cut);
    if cut == 0 {
        assert(p.len() == 0);
    } else {
        match f {
            FrameView::Simple(c) => {
                assert(encode(f) =~= seq![43u8] + (c + seq![CR, LF]));
                lemma_parse_prefix_line(seq![43u8], c, cut);
            },
            FrameView::Error(c) => {
                assert(encode(f) =~= seq![45u8] + (c + seq![CR, LF]));
                lemma_parse_prefix_line(seq![45u8], c, cut);
            },
            FrameView::Integer(n) => {
                lemma_int_text_no_crlf(n);
                assert(encode(f) =~= seq![58u8] + (int_text(n) + seq![CR, LF]));
                lemma_parse_prefix_line(seq![58u8], int_text(n), cut);
            },
            FrameView::Null => {
                let marker = seq![45u8, 49u8];
                assert forall|j: int| !crlf_at(marker, j) by {
                    if 0 <= j && j + 2 <= marker.len() {
                        assert(marker[0] == 45);
                    }
                }
                assert(encode(f) =~= seq![36u8] + (marker + seq![CR, LF]));
                lemma_parse_prefix_line(seq![36u8], marker, cut);
            },
            FrameView::Bulk(b) => {
                lemma_parse_prefix_bulk(b, cut);
            },
            FrameView::Array(v) => {
                let digits = dec_digits(v.len());
                let i: int = digits.len() as int;
                let header: int = 1 + i + 2;
                lemma_dec_digits(v.len());
                lemma_digits_no_crlf(digits);
                if cut < header {
                    assert(encode(f).take(cut) =~= (seq![42u8] + (digits + seq![CR, LF])).take(
                        cut,
                    ));
                    lemma_parse_prefix_header(seq![42u8], digits, cut);
                } else {
                    assert(p[0] == 42);
                    let tail = encode_all(v).take(cut - header);
                    assert(p.skip(1) =~= digits + seq![CR, LF] + tail);
                    lemma_find_crlf_of_line(digits, tail);
                    let line = p.skip(1).take(i);
                    assert(line =~= digits);
                    lemma_len_text_val(v.len());
                    assert(usize_text_val(line) == Some(v.len() as int));
                    assert(header <= p.len());
                    assert(p.skip(header) =~= tail);
                    assert(cut - header < encode_all(v).len());
                    lemma_parse_prefix_run(v, cut - header);
                }
            },
        }
    }
}

/// Cutting the concatenated encodings of a run of well-formed frames before
/// their end reads as "not enough bytes yet".
pub proof fn lemma_parse_prefix_run(v: Seq<FrameView>, cut: int)
    requires
        forall|k: int| 0 <= k < v.len() ==> wf(#[trigger] v[k]),
        0 <= cut < encode_all(v).len(),
    ensures
        spec_parse_run(encode_all(v).take(cut), v.len() as int) is Incomplete,
    decreases v,
{
    let p = encode_all(v).take(cut);
    assert(v.len() > 0);
    let first = v[0];
    let rest = v.drop_first();
    let l0: int = encode(first).len() as int;
    assert(encode_all(v) == encode(first) + encode_all(rest));
    assert forall|k: int| 0 <= k < rest.len() implies wf(#[trigger] rest[k]) by {
        assert(rest[k] == v[k + 1]);
    }
    if cut < l0 {
        assert(p =~= encode(first).take(cut));
        lemma_parse_prefix(first, cut);
    } else if cut == l0 {
        assert(p =~= encode(first) + Seq::<u8>::empty());
        lemma_parse_encode(first, Seq::empty());
        lemma_parse_len(p);
        assert(p.skip(l0) =~= Seq::<u8>::empty());
        assert(encode_all(rest).len() > 0);
        assert(rest.len() > 0);
        assert(spec_parse(Seq::<u8>::empty()) is Incomplete);
        assert(spec_parse_run(Seq::<u8>::empty(), v.len() as int - 1) is Incomplete);
    } else {
        let tail = encode_all(rest).take(cut - l0);
        assert(p =~= encode(first) + tail);
        lemma_parse_encode(first, tail);
        lemma_parse_len(p);
        assert(p.skip(l0) =~= tail);
        lemma_parse_prefix_run(rest, cut - l0);
    }
}

/// A cut inside `sigil line terminator` reads as "not enough bytes yet",
/// provided the line holds no terminator.
proof fn lemma_parse_prefix_line(sigil: Seq<u8>, content: Seq<u8>, cut: int)
    requires
        sigil.len() == 1,
        sigil[0] == 43 || sigil[0] == 45 || sigil[0] == 58 || sigil[0] == 36 || sigil[0] == 42,
        !contains_crlf(content),
        1 <= cut < 1 + content.len() + 2,
    ensures
        spec_parse((sigil + (content + seq![CR, LF])).take(cut)) is Incomplete,
{
    lemma_parse_prefix_header(sigil, content, cut);
}

/// Common core: with the line cut before the end of its terminator, every
/// sigil branch reports "not enough bytes yet".
proof fn lemma_parse_prefix_header(sigil: Seq<u8>, content: Seq<u8>, cut: int)
    requires
        sigil.len() == 1,
        sigil[0] == 43 || sigil[0] == 45 || sigil[0] == 58 || sigil[0] == 36 || sigil[0] == 42,
        !contains_crlf(content),
        1 <= cut < 1 + content.len() + 2,
    ensures
        spec_parse((sigil + (content + seq![CR, LF])).take(cut)) is Incomplete,
{
    let p = (sigil + (content + seq![CR, LF])).take(cut);
    assert(p[0] == sigil[0]);
    assert(p.skip(1) =~= (content + seq![CR, LF]).take(cut - 1));
    lemma_find_crlf_partial_line(content, cut - 1);
    assert(find_crlf(p.skip(1)) is None);
}

/// A cut inside a bulk frame's encoding reads as "not enough bytes yet".
proof fn lemma_parse_prefix_bulk(b: Seq<u8>, cut: int)
    requires
        b.len() <= usize::MAX,
        0 < cut < encode(FrameView::Bulk(b)).len(),
    ensures
        spec_parse(encode(FrameView::Bulk(b)).take(cut)) is Incomplete,
{
    let f = FrameView::Bulk(b);
    let digits = dec_digits(b.len());
    let i: int = digits.len() as int;
    let header: int = 1 + i + 2;
    lemma_dec_digits(b.len());
    lemma_digits_no_crlf(digits);
    let p = encode(f).take(cut);
    if cut < header {
        assert(encode(f).take(cut) =~= (seq![36u8] + (digits + seq![CR, LF])).take(cut));
        lemma_parse_prefix_header(seq![36u8], digits, cut);
    } else {
        assert(p[0] == 36);
        let tail = (b + seq![CR, LF]).take(cut - header);
        assert(p.skip(1) =~= digits + seq![CR, LF] + tail);
        lemma_find_crlf_of_line(digits, tail);
        let line = p.skip(1).take(i);
        assert(line =~= digits);
        assert(line != seq![45u8, 49u8]) by {
            assert(is_digit(digits[0]));
        }
        lemma_len_text_val(b.len());
        assert(usize_text_val(line) == Some(b.len() as int));
        assert(p.len() == cut < header + b.len() + 2);
    }
}

/// The encoding of a well-formed bulk frame, followed by any further bytes,
/// reads back as that frame.
proof fn lemma_parse_encode_bulk(b: Seq<u8>, extra: Seq<u8>)
    requires
        b.len() <= usize::MAX,
    ensures
        spec_parse(encode(FrameView::Bulk(b)) + extra) == (SpecParse::Complete {
            frame: FrameView::Bulk(b),
            len: encode(FrameView::Bulk(b)).len() as int,
        }),
{
    let f = FrameView::Bulk(b);
    let digits = dec_digits(b.len());
    let i: int = digits.len() as int;
    let header: int = 1 + i + 2;
    let n: int = b.len() as int;
    let s = encode(f) + extra;
    assert(s[0] == 36);
    lemma_dec_digits(b.len());
    lemma_digits_no_crlf(digits);
    assert(s.skip(1) =~= digits + seq![CR, LF] + (b + seq![CR, LF] + extra));
    lemma_find_crlf_of_line(digits, b + seq![CR, LF] + extra);
    let line = s.skip(1).take(i);
    assert(line =~= digits);
    assert(line != seq![45u8, 49u8]) by {
        assert(is_digit(digits[0]));
    }
    lemma_len_text_val(b.len());
    assert(usize_text_val(line) == Some(n));
    assert(s.len() == header + n + 2 + extra.len());
    assert(s.skip(1) =~= digits + seq![CR, LF] + b + seq![CR, LF] + extra);
    assert(s[header + n] == s.skip(1)[header + n - 1]);
    assert(s.skip(1)[header + n - 1] == CR) by {
        assert(s.skip(1) =~= digits + seq![CR, LF] + b + seq![CR, LF] + extra);
        assert((digits + seq![CR, LF] + b + seq![CR, LF] + extra)[i + 2 + n] == CR);
    }
    assert(s[header + n + 1] == s.skip(1)[header + n]);
    assert(s.skip(1)[header + n] == LF) by {
        assert((digits + seq![CR, LF] + b + seq![CR, LF] + extra)[i + 2 + n + 1] == LF);
    }
    assert(s.subrange(header, header + n) =~= b);
    assert(encode(f).len() == header + n + 2);
}

/// Round trip: reading back the serialization of any well-formed frame,
/// nested arrays and terminator bytes inside bulk payloads included, yields
/// that very frame and consumes its whole encoding.
pub proof fn lemma_round_trip(f: FrameView)
    requires
        wf(f),
    ensures
        spec_parse(encode(f)) == (SpecParse::Complete {
            frame: f,
            len: encode(f).len() as int,
        }),
{
    assert(encode(f) + Seq::<u8>::empty() =~= encode(f));
    lemma_parse_encode(f, Seq::empty());
}

/// Splitting a valid encoding at any position and offering the first part
/// alone asks for more bytes without consuming any; once the rest arrives,
/// the whole reads as the original frame. Feeding in two steps therefore
/// agrees with feeding in one.
pub proof fn lemma_incomplete_then_complete(f: FrameView, cut: int)
    requires
        wf(f),
        0 <= cut < encode(f).len(),
    ensures
        spec_parse(encode(f).take(cut)) is Incomplete,
        spec_parse(encode(f).take(cut) + encode(f).skip(cut)) == (SpecParse::Complete {
            frame: f,
            len: encode(f).len() as int,
        }),
{
    lemma_parse_prefix(f, cut);
    assert(encode(f).take(cut) + encode(f).skip(cut) =~= encode(f));
    lemma_round_trip(f);
}

/// A length read from digit text is non-negative.
proof fn lemma_usize_text_val_nonneg(t: Seq<u8>)
    ensures
        match usize_text_val(t) {
            Some(n) => 0 <= n <= usize::MAX,
            None => true,
        },
{
    let d = if t.len() >= 1 && t[0] == 43 {
        t.drop_first()
    } else {
        t
    };
    if is_digits(d) {
        crate::scan::lemma_digits_val_nonneg(d);
    }
}

} // verus!
