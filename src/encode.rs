use vstd::prelude::*;
use crate::frame::{
    single_line, text_bytes, BulkString, FloatWrapper, RespArray, RespFrame, RespMap, RespNull,
    RespNullArray, RespNullBulkString, RespSet, SimpleError, SimpleString,
};
use crate::number::{decimal, double_text, push_decimal, push_double, push_signed, signed_decimal};
use crate::order::bytes_lt;
use crate::rank::{rank, rank_lt};

verus! {

pub open spec fn crlf() -> Seq<u8> {
    seq![13u8, 10u8]
}

/// A header line: a type byte, a decimal count, and the terminator.
pub open spec fn header(tag: u8, n: nat) -> Seq<u8> {
    seq![tag] + decimal(n) + crlf()
}

/// The wire bytes of a simple string carrying `t`.
pub open spec fn simple_line(tag: u8, t: String) -> Seq<u8> {
    seq![tag] + text_bytes(t) + crlf()
}

/// The wire bytes of a frame.
pub open spec fn frame_bytes(f: RespFrame) -> Seq<u8>
    decreases f,
{
    match f {
        RespFrame::SimpleString(s) => simple_line(43u8, s.0),
        RespFrame::Error(e) => simple_line(45u8, e.0),
        RespFrame::Integer(i) => seq![58u8] + signed_decimal(i as int) + crlf(),
        RespFrame::BulkString(b) => header(36u8, b.0@.len()) + b.0@ + crlf(),
        RespFrame::NullBulkString(_) => seq![36u8, 45u8, 49u8, 13u8, 10u8],
        RespFrame::Null(_) => seq![95u8, 13u8, 10u8],
        RespFrame::NullArray(_) => seq![42u8, 45u8, 49u8, 13u8, 10u8],
        RespFrame::Array(a) => header(42u8, a.0@.len()) + frames_bytes(a.0@),
        RespFrame::Boolean(b) => seq![35u8, if b { 116u8 } else { 102u8 }, 13u8, 10u8],
        RespFrame::Double(w) => seq![44u8] + double_text(w) + crlf(),
        RespFrame::RespMap(m) => header(37u8, m.0@.len()) + entries_bytes(m.0@),
        RespFrame::RespSet(s) => header(126u8, s.0@.len()) + frames_bytes(s.0@),
    }
}

/// The wire bytes of a sequence of frames, one after another.
pub open spec fn frames_bytes(s: Seq<RespFrame>) -> Seq<u8>
    decreases s,
{
    if s.len() == 0 {
        Seq::empty()
    } else {
        frames_bytes(s.drop_last()) + frame_bytes(s.last())
    }
}

/// The wire bytes of map entries: each key as a simple string, then its value.
pub open spec fn entries_bytes(s: Seq<(String, RespFrame)>) -> Seq<u8>
    decreases s,
{
    if s.len() == 0 {
        Seq::empty()
    } else {
        entries_bytes(s.drop_last()) + simple_line(43u8, s.last().0) + frame_bytes(s.last().1)
    }
}

/// Map keys in strictly increasing byte order: sorted and unique.
pub open spec fn keys_sorted(s: Seq<(String, RespFrame)>) -> bool {
    forall|i: int, j: int|
        0 <= i < j < s.len() ==> bytes_lt(text_bytes(#[trigger] s[i].0), text_bytes(#[trigger] s[j].0))
}

/// Frames in strictly increasing frame order: sorted and without duplicates.
pub open spec fn frames_sorted(s: Seq<RespFrame>) -> bool {
    forall|i: int, j: int| 0 <= i < j < s.len() ==> rank_lt(rank(#[trigger] s[i]), rank(#[trigger] s[j]))
}

/// A frame that the constructors can build: text on one line, doubles in canonical form,
/// map keys and set members in canonical order, and the same of every child.
pub open spec fn frame_wf(f: RespFrame) -> bool
    decreases f,
{
    match f {
        RespFrame::SimpleString(s) => single_line(text_bytes(s.0)),
        RespFrame::Error(e) => single_line(text_bytes(e.0)),
        RespFrame::Double(w) => w.wf(),
        RespFrame::Array(a) => frames_wf(a.0@),
        RespFrame::RespMap(m) => entries_wf(m.0@) && keys_sorted(m.0@),
        RespFrame::RespSet(s) => frames_wf(s.0@) && frames_sorted(s.0@),
        _ => true,
    }
}

pub open spec fn frames_wf(s: Seq<RespFrame>) -> bool
    decreases s,
{
    if s.len() == 0 {
        true
    } else {
        frames_wf(s.drop_last()) && frame_wf(s.last())
    }
}

pub open spec fn entries_wf(s: Seq<(String, RespFrame)>) -> bool
    decreases s,
{
    if s.len() == 0 {
        true
    } else {
        entries_wf(s.drop_last()) && single_line(text_bytes(s.last().0)) && frame_wf(s.last().1)
    }
}

pub proof fn lemma_frames_wf_index(s: Seq<RespFrame>, i: int)
    requires
        frames_wf(s),
        0 <= i < s.len(),
    ensures
        frame_wf(s[i]),
    decreases s.len(),
{
    if i < s.len() - 1 {
        lemma_frames_wf_index(s.drop_last(), i);
    }
}

pub proof fn lemma_entries_wf_index(s: Seq<(String, RespFrame)>, i: int)
    requires
        entries_wf(s),
        0 <= i < s.len(),
    ensures
        frame_wf(s[i].1),
        single_line(text_bytes(s[i].0)),
    decreases s.len(),
{
    if i < s.len() - 1 {
        lemma_entries_wf_index(s.drop_last(), i);
    }
}

/// Appends all of `src`.
pub fn push_all(buf: &mut Vec<u8>, src: &[u8])
    ensures
        final(buf)@ == old(buf)@ + src@,
{
    let mut i: usize = 0;
    while i < src.len()
        invariant
            i <= src@.len(),
            buf@ == old(buf)@ + src@.subrange(0, i as int),
        decreases src@.len() - i,
    {
        buf.push(src[i]);
        i = i + 1;
        proof {
            assert(buf@ =~= old(buf)@ + src@.subrange(0, i as int));
        }
    }
    proof {
        assert(src@.subrange(0, i as int) =~= src@);
    }
}

fn push_crlf(buf: &mut Vec<u8>)
    ensures
        final(buf)@ == old(buf)@ + crlf(),
{
    buf.push(13u8);
    buf.push(10u8);
    proof {
        assert(final(buf)@ =~= old(buf)@ + crlf());
    }
}

fn push_header(buf: &mut Vec<u8>, tag: u8, n: usize)
    ensures
        final(buf)@ == old(buf)@ + header(tag, n as nat),
{
    buf.push(tag);
    push_decimal(buf, n as u64);
    push_crlf(buf);
    proof {
        assert(final(buf)@ =~= old(buf)@ + header(tag, n as nat));
    }
}

fn push_simple_line(buf: &mut Vec<u8>, tag: u8, t: &String)
    ensures
        final(buf)@ == old(buf)@ + simple_line(tag, *t),
{
    buf.push(tag);
    push_all(buf, t.as_str().as_bytes());
    push_crlf(buf);
    proof {
        assert(final(buf)@ =~= old(buf)@ + simple_line(tag, *t));
    }
}

/// Appends the wire bytes of `f`.
pub fn encode_into(f: &RespFrame, buf: &mut Vec<u8>)
    requires
        frame_wf(*f),
    ensures
        final(buf)@ == old(buf)@ + frame_bytes(*f),
    decreases f,
{
    match f {
        RespFrame::SimpleString(s) => push_simple_line(buf, 43u8, &s.0),
        RespFrame::Error(e) => push_simple_line(buf, 45u8, &e.0),
        RespFrame::Integer(i) => {
            buf.push(58u8);
            push_signed(buf, *i);
            push_crlf(buf);
        },
        RespFrame::BulkString(b) => {
            push_header(buf, 36u8, b.0.len());
            push_all(buf, b.0.as_slice());
            push_crlf(buf);
        },
        RespFrame::NullBulkString(_) => {
            buf.push(36u8);
            buf.push(45u8);
            buf.push(49u8);
            push_crlf(buf);
        },
        RespFrame::Null(_) => {
            buf.push(95u8);
            push_crlf(buf);
        },
        RespFrame::NullArray(_) => {
            buf.push(42u8);
            buf.push(45u8);
            buf.push(49u8);
            push_crlf(buf);
        },
        RespFrame::Array(a) => {
            push_header(buf, 42u8, a.0.len());
            encode_all(f, &a.0, buf);
        },
        RespFrame::Boolean(b) => {
            buf.push(35u8);
            buf.push(if *b { 116u8 } else { 102u8 });
            push_crlf(buf);
        },
        RespFrame::Double(w) => {
            buf.push(44u8);
            push_double(buf, w);
            push_crlf(buf);
        },
        RespFrame::RespMap(m) => {
            push_header(buf, 37u8, m.0.len());
            encode_entries(f, &m.0, buf);
        },
        RespFrame::RespSet(s) => {
            push_header(buf, 126u8, s.0.len());
            encode_all(f, &s.0, buf);
        },
    }
    proof {
        assert(final(buf)@ =~= old(buf)@ + frame_bytes(*f));
    }
}

/// A value with a wire form.
pub trait RespEncode: Sized {
    /// The bytes that stand for this value on the wire.
    spec fn wire(&self) -> Seq<u8>;

    /// True when the value is well formed and so has a wire form.
    spec fn encodable(&self) -> bool;

    /// The wire bytes of the value.
    fn encode(self) -> (r: Vec<u8>)
        requires
            self.encodable(),
        ensures
            r@ == self.wire(),
    ;
}

impl RespEncode for RespFrame {
    open spec fn wire(&self) -> Seq<u8> {
        frame_bytes(*self)
    }

    open spec fn encodable(&self) -> bool {
        frame_wf(*self)
    }

    fn encode(self) -> (r: Vec<u8>) {
        let mut buf: Vec<u8> = Vec::new();
        encode_into(&self, &mut buf);
        proof {
            assert(buf@ =~= frame_bytes(self));
        }
        buf
    }
}

impl RespEncode for SimpleString {
    open spec fn wire(&self) -> Seq<u8> {
        frame_bytes(RespFrame::SimpleString(*self))
    }

    open spec fn encodable(&self) -> bool {
        frame_wf(RespFrame::SimpleString(*self))
    }

    fn encode(self) -> (r: Vec<u8>) {
        RespFrame::SimpleString(self).encode()
    }
}

impl RespEncode for SimpleError {
    open spec fn wire(&self) -> Seq<u8> {
        frame_bytes(RespFrame::Error(*self))
    }

    open spec fn encodable(&self) -> bool {
        frame_wf(RespFrame::Error(*self))
    }

    fn encode(self) -> (r: Vec<u8>) {
        RespFrame::Error(self).encode()
    }
}

impl RespEncode for i64 {
    open spec fn wire(&self) -> Seq<u8> {
        frame_bytes(RespFrame::Integer(*self))
    }

    open spec fn encodable(&self) -> bool {
        frame_wf(RespFrame::Integer(*self))
    }

    fn encode(self) -> (r: Vec<u8>) {
        RespFrame::Integer(self).encode()
    }
}

impl RespEncode for BulkString {
    open spec fn wire(&self) -> Seq<u8> {
        frame_bytes(RespFrame::BulkString(*self))
    }

    open spec fn encodable(&self) -> bool {
        frame_wf(RespFrame::BulkString(*self))
    }

    fn encode(self) -> (r: Vec<u8>) {
        RespFrame::BulkString(self).encode()
    }
}

impl RespEncode for RespNullBulkString {
    open spec fn wire(&self) -> Seq<u8> {
        frame_bytes(RespFrame::NullBulkString(*self))
    }

    open spec fn encodable(&self) -> bool {
        frame_wf(RespFrame::NullBulkString(*self))
    }

    fn encode(self) -> (r: Vec<u8>) {
        RespFrame::NullBulkString(self).encode()
    }
}

impl RespEncode for RespNull {
    open spec fn wire(&self) -> Seq<u8> {
        frame_bytes(RespFrame::Null(*self))
    }

    open spec fn encodable(&self) -> bool {
        frame_wf(RespFrame::Null(*self))
    }

    fn encode(self) -> (r: Vec<u8>) {
        RespFrame::Null(self).encode()
    }
}

impl RespEncode for RespNullArray {
    open spec fn wire(&self) -> Seq<u8> {
        frame_bytes(RespFrame::NullArray(*self))
    }

    open spec fn encodable(&self) -> bool {
        frame_wf(RespFrame::NullArray(*self))
    }

    fn encode(self) -> (r: Vec<u8>) {
        RespFrame::NullArray(self).encode()
    }
}

impl RespEncode for RespArray {
    open spec fn wire(&self) -> Seq<u8> {
        frame_bytes(RespFrame::Array(*self))
    }

    open spec fn encodable(&self) -> bool {
        frame_wf(RespFrame::Array(*self))
    }

    fn encode(self) -> (r: Vec<u8>) {
        RespFrame::Array(self).encode()
    }
}

impl RespEncode for bool {
    open spec fn wire(&self) -> Seq<u8> {
        frame_bytes(RespFrame::Boolean(*self))
    }

    open spec fn encodable(&self) -> bool {
        frame_wf(RespFrame::Boolean(*self))
    }

    fn encode(self) -> (r: Vec<u8>) {
        RespFrame::Boolean(self).encode()
    }
}

impl RespEncode for FloatWrapper {
    open spec fn wire(&self) -> Seq<u8> {
        frame_bytes(RespFrame::Double(*self))
    }

    open spec fn encodable(&self) -> bool {
        frame_wf(RespFrame::Double(*self))
    }

    fn encode(self) -> (r: Vec<u8>) {
        RespFrame::Double(self).encode()
    }
}

impl RespEncode for RespMap {
    open spec fn wire(&self) -> Seq<u8> {
        frame_bytes(RespFrame::RespMap(*self))
    }

    open spec fn encodable(&self) -> bool {
        frame_wf(RespFrame::RespMap(*self))
    }

    fn encode(self) -> (r: Vec<u8>) {
        RespFrame::RespMap(self).encode()
    }
}

impl RespEncode for RespSet {
    open spec fn wire(&self) -> Seq<u8> {
        frame_bytes(RespFrame::RespSet(*self))
    }

    open spec fn encodable(&self) -> bool {
        frame_wf(RespFrame::RespSet(*self))
    }

    fn encode(self) -> (r: Vec<u8>) {
        RespFrame::RespSet(self).encode()
    }
}

impl RespEncode for () {
    open spec fn wire(&self) -> Seq<u8> {
        frame_bytes(RespFrame::NullBulkString(RespNullBulkString))
    }

    open spec fn encodable(&self) -> bool {
        true
    }

    fn encode(self) -> (r: Vec<u8>) {
        RespNullBulkString.encode()
    }
}

/// Encoding is a function of the frame alone: the same frame gives the same bytes each time.
pub proof fn law_encode_idempotent(f: RespFrame, first: Seq<u8>, second: Seq<u8>)
    requires
        first == f.wire(),
        second == f.wire(),
    ensures
        first == second,
{
}

/// Appends the wire bytes of each frame of `v`, children of `parent`, in order.
fn encode_all(parent: &RespFrame, v: &Vec<RespFrame>, buf: &mut Vec<u8>)
    requires
        frames_wf(v@),
        decreases_to!(*parent => v@),
    ensures
        final(buf)@ == old(buf)@ + frames_bytes(v@),
    decreases parent, 0nat,
{
    let mut i: usize = 0;
    while i < v.len()
        invariant
            i <= v@.len(),
            frames_wf(v@),
            decreases_to!(*parent => v@),
            buf@ == old(buf)@ + frames_bytes(v@.subrange(0, i as int)),
        decreases v@.len() - i,
    {
        proof {
            lemma_frames_wf_index(v@, i as int);
            assert(decreases_to!(v@ => v@[i as int]));
        }
        encode_into(&v[i], buf);
        proof {
            let s = v@.subrange(0, i + 1);
            assert(s.drop_last() =~= v@.subrange(0, i as int));
        }
        i = i + 1;
    }
    proof {
        assert(v@.subrange(0, i as int) =~= v@);
    }
}

/// Appends each map entry: the key as a simple string, then the value.
fn encode_entries(parent: &RespFrame, v: &Vec<(String, RespFrame)>, buf: &mut Vec<u8>)
    requires
        entries_wf(v@),
        decreases_to!(*parent => v@),
    ensures
        final(buf)@ == old(buf)@ + entries_bytes(v@),
    decreases parent, 0nat,
{
    let mut i: usize = 0;
    while i < v.len()
        invariant
            i <= v@.len(),
            entries_wf(v@),
            decreases_to!(*parent => v@),
            buf@ == old(buf)@ + entries_bytes(v@.subrange(0, i as int)),
        decreases v@.len() - i,
    {
        proof {
            lemma_entries_wf_index(v@, i as int);
            assert(decreases_to!(v@ => v@[i as int]));
        }
        let entry = &v[i];
        push_simple_line(buf, 43u8, &entry.0);
        encode_into(&entry.1, buf);
        proof {
            let s = v@.subrange(0, i + 1);
            assert(s.drop_last() =~= v@.subrange(0, i as int));
        }
        i = i + 1;
    }
    proof {
        assert(v@.subrange(0, i as int) =~= v@);
    }
}

} // verus!
