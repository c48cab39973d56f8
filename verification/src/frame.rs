//! The protocol's data model: a frame is one of six variants, each with an
//! exact wire form. `encode` is the mathematical wire form of a frame;
//! `serialize` produces exactly those bytes.
use vstd::prelude::*;
use crate::scan::{CR, LF, contains_crlf, is_utf8, int_text, dec_digits};

verus! {

/// Mathematical model of a frame: payloads as byte sequences, the integer
/// unbounded, elements as a sequence of models.
pub enum FrameView {
    Simple(Seq<u8>),
    Error(Seq<u8>),
    Integer(int),
    Bulk(Seq<u8>),
    Null,
    Array(Seq<FrameView>),
}

/// One structurally complete unit of the wire protocol.
#[derive(Debug, PartialEq, Eq)]
pub enum Frame {
    /// Line-oriented text, e.g. an acknowledgment.
    Simple(Vec<u8>),
    /// Line-oriented text on the error channel.
    Error(Vec<u8>),
    /// A signed 64-bit integer.
    Integer(i64),
    /// Length-prefixed raw bytes; arbitrary content is legal.
    Bulk(Vec<u8>),
    /// The absent value, wire-identical in shape to a bulk of length -1.
    Null,
    /// An ordered sequence of frames, nested to arbitrary depth.
    Array(Vec<Frame>),
}

/// Models of the elements of a frame sequence, in order.
pub open spec fn views_of(s: Seq<Frame>) -> Seq<FrameView>
    decreases s,
{
    if s.len() == 0 {
        Seq::empty()
    } else {
        views_of(s.drop_last()).push(s.last()@)
    }
}

/// `views_of` maps each element to its model, keeping length and order.
pub proof fn lemma_views_of(s: Seq<Frame>)
    ensures
        views_of(s).len() == s.len(),
        forall|i: int| 0 <= i < s.len() ==> views_of(s)[i] == #[trigger] s[i]@,
    decreases s.len(),
{
    if s.len() > 0 {
        lemma_views_of(s.drop_last());
        assert(views_of(s) == views_of(s.drop_last()).push(s.last()@));
        assert(views_of(s.drop_last()).len() == s.drop_last().len());
        assert(s.drop_last().len() == s.len() - 1);
        assert(views_of(s).len() == s.len());
        assert forall|i: int| 0 <= i < s.len() implies views_of(s)[i] == #[trigger] s[i]@ by {
            if i < s.len() - 1 {
                assert(views_of(s.drop_last())[i] == s.drop_last()[i]@);
                assert(s.drop_last()[i] == s[i]);
                assert(views_of(s)[i] == views_of(s.drop_last())[i]);
            } else {
                assert(views_of(s)[i] == s.last()@);
                assert(s.last() == s[i]);
            }
        }
    }
}

impl View for Frame {
    type V = FrameView;

    open spec fn view(&self) -> FrameView
        decreases self,
    {
        match self {
            Frame::Simple(s) => FrameView::Simple(s@),
            Frame::Error(s) => FrameView::Error(s@),
            Frame::Integer(n) => FrameView::Integer(*n as int),
            Frame::Bulk(b) => FrameView::Bulk(b@),
            Frame::Null => FrameView::Null,
            Frame::Array(v) => FrameView::Array(views_of(v@)),
        }
    }
}

/// The frames the wire format can carry: text payloads hold no line
/// terminator and are well-formed UTF-8, the integer fits 64 signed bits, and
/// lengths fit a machine word.
pub open spec fn wf(f: FrameView) -> bool
    decreases f,
{
    match f {
        FrameView::Simple(s) => !contains_crlf(s) && is_utf8(s),
        FrameView::Error(s) => !contains_crlf(s) && is_utf8(s),
        FrameView::Integer(n) => i64::MIN <= n <= i64::MAX,
        FrameView::Bulk(b) => b.len() <= usize::MAX,
        FrameView::Null => true,
        FrameView::Array(v) => v.len() <= usize::MAX && (forall|i: int|
            0 <= i < v.len() ==> wf(#[trigger] v[i])),
    }
}

/// The exact wire bytes of a frame: a one-byte sigil, then the payload in
/// line or length-prefixed form, each line closed by the two-byte terminator.
pub open spec fn encode(f: FrameView) -> Seq<u8>
    decreases f,
{
    match f {
        FrameView::Simple(s) => seq![43u8] + s + seq![CR, LF],
        FrameView::Error(s) => seq![45u8] + s + seq![CR, LF],
        FrameView::Integer(n) => seq![58u8] + int_text(n) + seq![CR, LF],
        FrameView::Bulk(b) => seq![36u8] + dec_digits(b.len()) + seq![CR, LF] + b + seq![CR, LF],
        FrameView::Null => seq![36u8, 45u8, 49u8, CR, LF],
        FrameView::Array(v) => seq![42u8] + dec_digits(v.len()) + seq![CR, LF] + encode_all(v),
    }
}

/// The concatenated wire bytes of a sequence of frames, in order.
pub open spec fn encode_all(v: Seq<FrameView>) -> Seq<u8>
    decreases v,
{
    if v.len() == 0 {
        Seq::empty()
    } else {
        encode(v[0]) + encode_all(v.drop_first())
    }
}

/// Appending one frame appends its encoding.
pub proof fn lemma_encode_all_push(v: Seq<FrameView>, f: FrameView)
    ensures
        encode_all(v.push(f)) == encode_all(v) + encode(f),
    decreases v.len(),
{
    let w = v.push(f);
    if v.len() == 0 {
        assert(w[0] == f);
        assert(w.drop_first() =~= Seq::<FrameView>::empty());
        assert(encode_all(Seq::<FrameView>::empty()) == Seq::<u8>::empty());
        assert(encode_all(w) == encode(f) + Seq::<u8>::empty());
        assert(encode(f) + Seq::<u8>::empty() =~= encode(f));
        assert(encode_all(v) + encode(f) =~= encode(f));
    } else {
        assert(w.drop_first() =~= v.drop_first().push(f));
        lemma_encode_all_push(v.drop_first(), f);
        assert(encode(w[0]) + (encode_all(v.drop_first()) + encode(f)) =~= (encode(v[0])
            + encode_all(v.drop_first())) + encode(f));
    }
}

impl Frame {
    /// Wire bytes of this frame, ready for transmission.
    pub fn serialize(&self) -> (out: Vec<u8>)
        ensures
            out@ == encode(self@),
    {
        let mut out: Vec<u8> = Vec::new();
        self.write_to(&mut out);
        proof {
            assert(out@ =~= encode(self@));
        }
        out
    }

    /// Append the wire bytes of this frame to `out`.
    #[verifier::loop_isolation(false)]
    fn write_to(&self, out: &mut Vec<u8>)
        ensures
            final(out)@ == old(out)@ + encode(self@),
        decreases self@,
    {
        let ghost pre: Seq<u8> = out@;
        match self {
            Frame::Simple(s) => {
                out.push(43);
                push_all(out, s);
                push_crlf(out);
                proof {
                    assert(out@ =~= pre + encode(self@));
                }
            },
            Frame::Error(s) => {
                out.push(45);
                push_all(out, s);
                push_crlf(out);
                proof {
                    assert(out@ =~= pre + encode(self@));
                }
            },
            Frame::Integer(n) => {
                out.push(58);
                push_int(out, *n);
                push_crlf(out);
                proof {
                    assert(out@ =~= pre + encode(self@));
                }
            },
            Frame::Bulk(b) => {
                out.push(36);
                push_dec(out, b.len() as u64);
                push_crlf(out);
                push_all(out, b);
                push_crlf(out);
                proof {
                    assert(b@.len() as u64 as nat == b@.len());
                    assert(out@ =~= pre + encode(self@));
                }
            },
            Frame::Null => {
                out.push(36);
                out.push(45);
                out.push(49);
                push_crlf(out);
                proof {
                    assert(out@ =~= pre + encode(self@));
                }
            },
            Frame::Array(v) => {
                out.push(42);
                push_dec(out, v.len() as u64);
                push_crlf(out);
                let ghost header: Seq<u8> = out@;
                let n = v.len();
                let mut k: usize = 0;
                proof {
                    lemma_views_of(v@);
                    assert(views_of(v@).take(0) =~= Seq::<FrameView>::empty());
                    assert(header + encode_all(views_of(v@).take(0)) =~= header);
                }
                while k < n
                    invariant
                        k <= n == v@.len(),
                        out@ == header + encode_all(views_of(v@).take(k as int)),
                    decreases n - k,
                {
                    let ghost done: Seq<FrameView> = views_of(v@).take(k as int);
                    proof {
                        lemma_views_of(v@);
                        assert(self@ == FrameView::Array(views_of(v@)));
                        assert(decreases_to!(self@ => self@->Array_0));
                        assert(decreases_to!(views_of(v@) => views_of(v@)[k as int]));
                        assert(views_of(v@)[k as int] == v@[k as int]@);
                    }
                    v[k].write_to(out);
                    proof {
                        assert(views_of(v@).take(k + 1) =~= done.push(v@[k as int]@));
                        lemma_encode_all_push(done, v@[k as int]@);
                        assert(out@ =~= header + encode_all(views_of(v@).take(k + 1)));
                    }
                    k = k + 1;
                }
                proof {
                    lemma_views_of(v@);
                    assert(views_of(v@).take(n as int) =~= views_of(v@));
                    assert(v@.len() as u64 as nat == v@.len());
                    assert(out@ =~= pre + encode(self@));
                }
            },
        }
    }
}

/// Append the two-byte line terminator.
fn push_crlf(out: &mut Vec<u8>)
    ensures
        final(out)@ == old(out)@ + seq![CR, LF],
{
    out.push(CR);
    out.push(LF);
    proof {
        assert(out@ =~= old(out)@ + seq![CR, LF]);
    }
}

/// Append all of `data`.
fn push_all(out: &mut Vec<u8>, data: &Vec<u8>)
    ensures
        final(out)@ == old(out)@ + data@,
{
    let n = data.len();
    let mut k: usize = 0;
    proof {
        assert(out@ =~= old(out)@ + data@.take(0));
    }
    while k < n
        invariant
            k <= n == data@.len(),
            out@ == old(out)@ + data@.take(k as int),
        decreases n - k,
    {
        out.push(data[k]);
        proof {
            assert(data@.take(k + 1) =~= data@.take(k as int).push(data@[k as int]));
            assert(out@ =~= old(out)@ + data@.take(k + 1));
        }
        k = k + 1;
    }
    proof {
        assert(data@.take(n as int) =~= data@);
    }
}

/// Append the decimal digit text of `m`.
fn push_dec(out: &mut Vec<u8>, m: u64)
    ensures
        final(out)@ == old(out)@ + dec_digits(m as nat),
    decreases m,
{
    if m < 10 {
        out.push(48 + m as u8);
        proof {
            assert(out@ =~= old(out)@ + dec_digits(m as nat));
        }
    } else {
        push_dec(out, m / 10);
        out.push(48 + (m % 10) as u8);
        proof {
            assert((m / 10) as nat == (m as nat) / 10);
            assert((m % 10) as nat == (m as nat) % 10);
            assert(out@ =~= old(out)@ + dec_digits(m as nat));
        }
    }
}

/// Append the decimal text of `n`, sign included.
fn push_int(out: &mut Vec<u8>, n: i64)
    ensures
        final(out)@ == old(out)@ + int_text(n as int),
{
    if n >= 0 {
        push_dec(out, n as u64);
        proof {
            assert(n as u64 as nat == n as nat);
        }
    } else {
        out.push(45);
        let wide: i128 = n as i128;
        let mag: u64 = (-wide) as u64;
        proof {
            assert(0 < -wide <= 9223372036854775808i128);
            assert(mag as int == -(n as int));
        }
        push_dec(out, mag);
        proof {
            assert(out@ =~= old(out)@ + int_text(n as int));
        }
    }
}

} // verus!
