use vstd::prelude::*;
use vstd::utf8::{decode_utf8, valid_utf8};
use crate::encode::{
    crlf, encode_into, entries_bytes, entries_wf, frame_bytes, frame_wf, frames_bytes, frames_sorted,
    frames_wf, header, keys_sorted, lemma_entries_wf_index, lemma_frames_wf_index, simple_line,
};
use crate::frame::{
    single_line, text_bytes, BulkString, RespArray, RespFrame, RespMap, RespNull, RespNullArray,
    FloatWrapper, RespNullBulkString, RespSet, SimpleError, SimpleString,
};
use crate::number::{
    decimal, double_text, lemma_decimal_digits, lemma_decimal_injective, lemma_decimal_nonempty,
    lemma_decimal_prefix_le, lemma_decimal_shape, push_double, signed_decimal,
};
use crate::order::{bytes_lt, compare_bytes, lemma_bytes_lt_transitive};
use crate::rank::{lemma_rank_lt_transitive, order_key, push_order_key, rank, rank_lt};

verus! {

broadcast use vstd::utf8::group_utf8_lib;

/// Why a buffer yields no frame.
#[derive(Debug, PartialEq, Eq, Structural)]
pub enum DecodeError {
    /// The buffer ends before the frame does; more bytes may complete it.
    Incomplete,
    /// The bytes break the grammar; the stream cannot be read further.
    Malformed,
    /// A type byte of the protocol whose payload this decoder does not read.
    UnsupportedType,
}

/// Relies on `String::from_utf8`: it succeeds exactly on valid UTF-8, and the string then
/// holds the characters those bytes encode.
#[verifier::external_body]
fn string_from_utf8(v: Vec<u8>) -> (r: Option<String>)
    ensures
        r is Some <==> valid_utf8(v@),
        r matches Some(s) ==> s@ == decode_utf8(v@),
{
    String::from_utf8(v).ok()
}

/// `b` holds the wire form of `f` starting at `pos`.
pub open spec fn holds_at(b: Seq<u8>, pos: int, f: RespFrame) -> bool {
    0 <= pos && pos + frame_bytes(f).len() <= b.len() && b.subrange(pos, pos + frame_bytes(f).len())
        == frame_bytes(f)
}

/// A frame was read, and reading stopped at `end`.
pub open spec fn succeeds_to(r: Result<(RespFrame, usize), DecodeError>, end: int) -> bool {
    r is Ok && r->Ok_0.1 == end
}

/// Type bytes of the protocol whose payloads this decoder does not read: blob error,
/// verbatim string, big number, push and attribute.
pub open spec fn unsupported_tag(t: u8) -> bool {
    t == 33u8 || t == 61u8 || t == 40u8 || t == 62u8 || t == 124u8
}

/// A complete line of `k` bytes starts at `start`.
pub open spec fn line_at(b: Seq<u8>, start: int, k: int) -> bool {
    &&& 0 <= start && 0 <= k && start + k + 2 <= b.len()
    &&& single_line(b.subrange(start, start + k))
    &&& b[start + k] == 13u8 && b[start + k + 1] == 10u8
}

/// A bulk string at `pos` whose complete length line is neither `-1` nor a decimal count, or
/// whose payload is all there but not followed by `\r\n`.
pub open spec fn malformed_bulk(b: Seq<u8>, pos: int) -> bool {
    &&& 0 <= pos < b.len() && b[pos] == 36u8
    &&& exists|k: int|
        #![trigger b.subrange(pos + 1, pos + 1 + k)]
        line_at(b, pos + 1, k) && ({
            let t = b.subrange(pos + 1, pos + 1 + k);
            ||| t != seq![45u8, 49u8] && forall|n: nat| t != #[trigger] decimal(n)
            ||| exists|n: nat|
                t == #[trigger] decimal(n) && pos + k + n + 5 <= b.len() && !(b[pos + k + n + 3]
                    == 13u8 && b[pos + k + n + 4] == 10u8)
        })
}

/// An array, set or map at `pos` whose complete header line is not a count (nor, for an
/// array, `-1`).
pub open spec fn malformed_header(b: Seq<u8>, pos: int) -> bool {
    &&& 0 <= pos < b.len() && (b[pos] == 42u8 || b[pos] == 126u8 || b[pos] == 37u8)
    &&& exists|k: int|
        #![trigger b.subrange(pos + 1, pos + 1 + k)]
        line_at(b, pos + 1, k) && ({
            let t = b.subrange(pos + 1, pos + 1 + k);
            &&& (b[pos] != 42u8 || t != seq![45u8, 49u8])
            &&& forall|n: nat| t != #[trigger] decimal(n)
        })
}

/// The header line at `pos` ends at `e` and reads as a count or `-1`: not a bad header.
proof fn lemma_header_read(b: Seq<u8>, pos: int, e: int)
    requires
        forall|k: int| #[trigger] line_at(b, pos + 1, k) ==> k == e - pos - 1,
        (b[pos] == 42u8 && b.subrange(pos + 1, e) == seq![45u8, 49u8]) || exists|n: nat|
            b.subrange(pos + 1, e) == #[trigger] decimal(n),
    ensures
        !malformed_header(b, pos),
{
    if malformed_header(b, pos) {
        let k = choose|k: int| #![trigger b.subrange(pos + 1, pos + 1 + k)] line_at(b, pos + 1, k) && ({
            let t = b.subrange(pos + 1, pos + 1 + k);
            &&& (b[pos] != 42u8 || t != seq![45u8, 49u8])
            &&& forall|n: nat| t != #[trigger] decimal(n)
        });
        assert(k == e - pos - 1);
    }
}

/// No header line is complete at `pos`: not a bad header.
proof fn lemma_header_missing(b: Seq<u8>, pos: int)
    requires
        forall|k: int| !#[trigger] line_at(b, pos + 1, k),
    ensures
        !malformed_header(b, pos),
{
}

/// A simple string or error at `pos` whose complete line is not valid UTF-8.
pub open spec fn malformed_text(b: Seq<u8>, pos: int) -> bool {
    &&& 0 <= pos < b.len() && (b[pos] == 43u8 || b[pos] == 45u8)
    &&& exists|k: int|
        #![trigger b.subrange(pos + 1, pos + 1 + k)]
        line_at(b, pos + 1, k) && !valid_utf8(b.subrange(pos + 1, pos + 1 + k))
}

/// Type bytes that this decoder reads.
pub open spec fn known_tag(t: u8) -> bool {
    t == 43u8 || t == 45u8 || t == 58u8 || t == 36u8 || t == 95u8 || t == 42u8 || t == 35u8 || t
        == 44u8 || t == 37u8 || t == 126u8
}

/// The type byte that the wire form of a frame starts with.
pub open spec fn tag_of(f: RespFrame) -> u8 {
    match f {
        RespFrame::SimpleString(_) => 43u8,
        RespFrame::Error(_) => 45u8,
        RespFrame::Integer(_) => 58u8,
        RespFrame::BulkString(_) => 36u8,
        RespFrame::NullBulkString(_) => 36u8,
        RespFrame::Null(_) => 95u8,
        RespFrame::NullArray(_) => 42u8,
        RespFrame::Array(_) => 42u8,
        RespFrame::Boolean(_) => 35u8,
        RespFrame::Double(_) => 44u8,
        RespFrame::RespMap(_) => 37u8,
        RespFrame::RespSet(_) => 126u8,
    }
}

proof fn lemma_tag(b: Seq<u8>, pos: int, f: RespFrame)
    requires
        holds_at(b, pos, f),
    ensures
        frame_bytes(f).len() >= 3,
        b[pos] == tag_of(f),
{
    let fb = frame_bytes(f);
    match f {
        RespFrame::BulkString(x) => {
            lemma_decimal_nonempty(x.0@.len());
        },
        RespFrame::Array(x) => {
            lemma_decimal_nonempty(x.0@.len());
        },
        RespFrame::RespMap(x) => {
            lemma_decimal_nonempty(x.0@.len());
        },
        RespFrame::RespSet(x) => {
            lemma_decimal_nonempty(x.0@.len());
        },
        RespFrame::Integer(i) => {
            lemma_decimal_nonempty(if i < 0 { -(i as int) } else { i as int } as nat);
        },
        RespFrame::Double(w) => {
        },
        _ => {},
    }
    assert(b.subrange(pos, pos + fb.len())[0] == b[pos]);
}

/// A line `tag`, `t`, `\r\n` at `pos`: where its parts stand.
proof fn lemma_line_at(b: Seq<u8>, pos: int, tag: u8, t: Seq<u8>)
    requires
        0 <= pos,
        pos + t.len() + 3 <= b.len(),
        b.subrange(pos, pos + t.len() + 3) == seq![tag] + t + crlf(),
    ensures
        b[pos] == tag,
        b.subrange(pos + 1, pos + 1 + t.len()) == t,
        b[pos + 1 + t.len()] == 13u8,
        b[pos + 2 + t.len()] == 10u8,
{
    let x = b.subrange(pos, pos + t.len() + 3);
    assert(x[0] == b[pos]);
    assert(x[t.len() + 1int] == b[pos + 1 + t.len()]);
    assert(x[t.len() + 2int] == b[pos + 2 + t.len()]);
    assert(b.subrange(pos + 1, pos + 1 + t.len()) =~= x.subrange(1, 1int + t.len()));
}

/// `b` ends inside `w` placed at `c`: what `b` holds from `c` on agrees with `w`, and is shorter.
pub open spec fn cut_by(b: Seq<u8>, c: int, w: Seq<u8>) -> bool {
    &&& 0 <= c <= b.len() < c + w.len()
    &&& forall|j: int| 0 <= j < b.len() - c ==> b[c + j] == w[j]
}

/// `b` ends inside the wire form of `f` that starts at `pos`.
pub open spec fn cut_at(b: Seq<u8>, pos: int, f: RespFrame) -> bool {
    cut_by(b, pos, frame_bytes(f))
}

/// Past a part that `b` holds whole, the cut goes on with what follows it.
proof fn lemma_cut_shift(b: Seq<u8>, c: int, p: Seq<u8>, w: Seq<u8>)
    requires
        cut_by(b, c, p + w),
        c + p.len() <= b.len(),
    ensures
        cut_by(b, c + p.len(), w),
        b.subrange(c, c + p.len()) == p,
{
    assert forall|j: int| 0 <= j < b.len() - (c + p.len()) implies b[c + p.len() + j] == w[j] by {
        assert(b[c + (p.len() + j)] == (p + w)[p.len() + j]);
    }
    assert forall|j: int| 0 <= j < p.len() implies b.subrange(c, c + p.len())[j] == p[j] by {
        assert(b[c + j] == (p + w)[j]);
    }
    assert(b.subrange(c, c + p.len()) =~= p);
}

/// A cut through a line `tag`, `t`, `\r\n` followed by `rest`: either inside the line, or past
/// it and inside `rest`.
proof fn lemma_line_cut(b: Seq<u8>, pos: int, tag: u8, t: Seq<u8>, rest: Seq<u8>)
    requires
        cut_by(b, pos, seq![tag] + t + crlf() + rest),
        pos < b.len(),
    ensures
        b[pos] == tag,
        b.len() < pos + 3 + t.len() ==> cut_by(b, pos + 1, t + crlf()),
        b.len() >= pos + 3 + t.len() ==> {
            &&& b.subrange(pos + 1, pos + 1 + t.len()) == t
            &&& b[pos + 1 + t.len()] == 13u8
            &&& b[pos + 2 + t.len()] == 10u8
            &&& cut_by(b, pos + 3 + t.len(), rest)
        },
{
    let w = seq![tag] + t + crlf() + rest;
    assert(b[pos + 0] == w[0]);
    let tail = (t + crlf()) + rest;
    assert(w =~= seq![tag] + tail);
    lemma_cut_shift(b, pos, seq![tag], tail);
    if b.len() < pos + 3 + t.len() {
        assert forall|j: int| 0 <= j < b.len() - (pos + 1) implies b[pos + 1 + j] == (t + crlf())[j] by {
            assert(b[pos + 1 + j] == tail[j]);
        }
    } else {
        lemma_cut_shift(b, pos + 1, t + crlf(), rest);
        let l = b.subrange(pos + 1, pos + 3 + t.len());
        assert(l[t.len() as int] == b[pos + 1 + t.len()]);
        assert(l[t.len() + 1int] == b[pos + 2 + t.len()]);
        assert(b.subrange(pos + 1, pos + 1 + t.len()) =~= l.subrange(0, t.len() as int));
    }
}

proof fn lemma_first_byte(f: RespFrame)
    ensures
        frame_bytes(f).len() >= 3,
        frame_bytes(f)[0] == tag_of(f),
{
    let fb = frame_bytes(f);
    assert(fb.subrange(0, fb.len() as int) =~= fb);
    lemma_tag(fb, 0, f);
}

/// The wire form of a frame that is a single line: its tag, its text, the terminator.
pub open spec fn line_text(f: RespFrame) -> Seq<u8> {
    match f {
        RespFrame::SimpleString(x) => text_bytes(x.0),
        RespFrame::Error(x) => text_bytes(x.0),
        RespFrame::Integer(i) => signed_decimal(i as int),
        RespFrame::Null(_) => Seq::empty(),
        RespFrame::Boolean(v) => seq![if v { 116u8 } else { 102u8 }],
        _ => Seq::empty(),
    }
}

proof fn lemma_line_frame(f: RespFrame)
    requires
        frame_wf(f),
        f is SimpleString || f is Error || f is Integer || f is Null || f is Boolean,
    ensures
        frame_bytes(f) =~= seq![tag_of(f)] + line_text(f) + crlf() + Seq::<u8>::empty(),
        single_line(line_text(f)),
{
    if let RespFrame::Integer(i) = f {
        let m = magnitude(i as int);
        lemma_decimal_single_line(m);
        let t = signed_decimal(i as int);
        assert forall|j: int| 0 <= j < t.len() implies t[j] != 13u8 && t[j] != 10u8 by {
            if j > 0 {
                assert(t[j] == decimal(m)[j - 1]);
            }
        }
    }
}

/// A cut through a one-line frame stays inside its line.
proof fn lemma_line_frame_cut(b: Seq<u8>, pos: int, f: RespFrame)
    requires
        frame_wf(f),
        f is SimpleString || f is Error || f is Integer || f is Null || f is Boolean,
        cut_at(b, pos, f),
        pos < b.len(),
    ensures
        cut_by(b, pos + 1, line_text(f) + crlf()),
        single_line(line_text(f)),
{
    lemma_line_frame(f);
    lemma_line_cut(b, pos, tag_of(f), line_text(f), Seq::empty());
}

proof fn lemma_members_bound(f: RespFrame)
    ensures
        members(f).len() <= usize::MAX,
        entries(f).len() <= usize::MAX,
{
    match f {
        RespFrame::Array(a) => {
            assert(a.0.len() as int == a.0@.len());
        },
        RespFrame::RespSet(x) => {
            assert(x.0.len() as int == x.0@.len());
        },
        RespFrame::RespMap(m) => {
            assert(m.0.len() as int == m.0@.len());
        },
        _ => {},
    }
}

/// A cut through a bulk string or a legacy null bulk string.
proof fn lemma_bulk_cut(b: Seq<u8>, pos: int, f: RespFrame)
    requires
        frame_wf(f),
        cut_at(b, pos, f),
        pos < b.len(),
        b[pos] == 36u8,
    ensures
        f is BulkString || f is NullBulkString,
        f is NullBulkString ==> cut_by(b, pos + 1, seq![45u8, 49u8] + crlf()) && single_line(
            seq![45u8, 49u8],
        ),
        f is BulkString ==> ({
            let data = f->BulkString_0.0@;
            let d = decimal(data.len());
            &&& single_line(d)
            &&& (b.len() < pos + 3 + d.len() ==> cut_by(b, pos + 1, d + crlf()))
            &&& (b.len() >= pos + 3 + d.len() ==> {
                &&& b.subrange(pos + 1, pos + 1 + d.len()) == d
                &&& b[pos + 1 + d.len()] == 13u8
                &&& b[pos + 2 + d.len()] == 10u8
                &&& b.len() < pos + 3 + d.len() + data.len() + 2
            })
            &&& d[0] != 45u8
        }),
{
    lemma_first_byte(f);
    assert(b[pos + 0] == frame_bytes(f)[0]);
    if f is NullBulkString {
        assert(frame_bytes(f) =~= seq![36u8] + seq![45u8, 49u8] + crlf() + Seq::<u8>::empty());
        lemma_line_cut(b, pos, 36u8, seq![45u8, 49u8], Seq::empty());
    } else {
        let data = f->BulkString_0.0@;
        let d = decimal(data.len());
        lemma_decimal_single_line(data.len());
        assert(frame_bytes(f) =~= seq![36u8] + d + crlf() + (data + crlf()));
        lemma_line_cut(b, pos, 36u8, d, data + crlf());
    }
}

/// A cut through an array, legacy null array or set.
proof fn lemma_sequence_cut(b: Seq<u8>, pos: int, f: RespFrame)
    requires
        frame_wf(f),
        cut_at(b, pos, f),
        pos < b.len(),
        b[pos] == 42u8 || b[pos] == 126u8,
    ensures
        f is Array || f is RespSet || f is NullArray,
        f is NullArray ==> cut_by(b, pos + 1, seq![45u8, 49u8] + crlf()) && single_line(
            seq![45u8, 49u8],
        ),
        !(f is NullArray) ==> ({
            let m = members(f);
            let d = decimal(m.len());
            &&& single_line(d)
            &&& (b.len() < pos + 3 + d.len() ==> cut_by(b, pos + 1, d + crlf()))
            &&& (b.len() >= pos + 3 + d.len() ==> {
                &&& b.subrange(pos + 1, pos + 1 + d.len()) == d
                &&& b[pos + 1 + d.len()] == 13u8
                &&& b[pos + 2 + d.len()] == 10u8
                &&& cut_by(b, pos + 3 + d.len(), frames_bytes(m))
            })
            &&& d[0] != 45u8
            &&& (b[pos] == 42u8 <==> f is Array)
        }),
{
    lemma_first_byte(f);
    assert(b[pos + 0] == frame_bytes(f)[0]);
    if f is NullArray {
        assert(frame_bytes(f) =~= seq![42u8] + seq![45u8, 49u8] + crlf() + Seq::<u8>::empty());
        lemma_line_cut(b, pos, 42u8, seq![45u8, 49u8], Seq::empty());
    } else {
        let m = members(f);
        let d = decimal(m.len());
        lemma_decimal_single_line(m.len());
        assert(frame_bytes(f) =~= seq![tag_of(f)] + d + crlf() + frames_bytes(m));
        lemma_line_cut(b, pos, tag_of(f), d, frames_bytes(m));
    }
}

/// A cut through a map.
proof fn lemma_map_cut(b: Seq<u8>, pos: int, f: RespFrame)
    requires
        frame_wf(f),
        cut_at(b, pos, f),
        pos < b.len(),
        b[pos] == 37u8,
    ensures
        f is RespMap,
        ({
            let m = entries(f);
            let d = decimal(m.len());
            &&& single_line(d)
            &&& (b.len() < pos + 3 + d.len() ==> cut_by(b, pos + 1, d + crlf()))
            &&& (b.len() >= pos + 3 + d.len() ==> {
                &&& b.subrange(pos + 1, pos + 1 + d.len()) == d
                &&& b[pos + 1 + d.len()] == 13u8
                &&& b[pos + 2 + d.len()] == 10u8
                &&& cut_by(b, pos + 3 + d.len(), entries_bytes(m))
            })
        }),
{
    lemma_first_byte(f);
    assert(b[pos + 0] == frame_bytes(f)[0]);
    let m = entries(f);
    let d = decimal(m.len());
    lemma_decimal_single_line(m.len());
    assert(frame_bytes(f) =~= seq![37u8] + d + crlf() + entries_bytes(m));
    lemma_line_cut(b, pos, 37u8, d, entries_bytes(m));
}

/// Member `i` of a cut sequence: cut itself, or held whole.
proof fn lemma_member_cut(b: Seq<u8>, start: int, s: Seq<RespFrame>, i: int)
    requires
        cut_by(b, start, frames_bytes(s)),
        0 <= i < s.len(),
        start + frames_bytes(s.subrange(0, i)).len() <= b.len(),
    ensures
        ({
            let c = start + frames_bytes(s.subrange(0, i)).len();
            &&& b.len() < c + frame_bytes(s[i]).len() ==> cut_at(b, c, s[i])
            &&& b.len() >= c + frame_bytes(s[i]).len() ==> holds_at(b, c, s[i])
            &&& frames_bytes(s.subrange(0, i + 1)).len() == frames_bytes(s.subrange(0, i)).len()
                + frame_bytes(s[i]).len()
        }),
{
    lemma_frames_prefix(s, i + 1);
    let p = s.subrange(0, i + 1);
    assert(p.drop_last() =~= s.subrange(0, i));
    let x = frames_bytes(s.subrange(0, i));
    let y = frames_bytes(p);
    let fs = frames_bytes(s);
    let fb = frame_bytes(s[i]);
    assert(y == x + fb);
    let c = start + x.len();
    assert forall|j: int| 0 <= j < fb.len() && c + j < b.len() implies b[c + j] == fb[j] by {
        assert(b[start + (x.len() + j)] == fs[x.len() + j]);
        assert(fs[x.len() + j] == fs.subrange(0, y.len() as int)[x.len() + j]);
        assert(y[x.len() + j] == fb[j]);
    }
    if b.len() >= c + fb.len() {
        assert(b.subrange(c, c + fb.len()) =~= fb);
    }
}

/// Entry `i` of a cut map: its key line and value, each cut, held whole, or not reached.
proof fn lemma_entry_cut(b: Seq<u8>, start: int, s: Seq<(String, RespFrame)>, i: int)
    requires
        cut_by(b, start, entries_bytes(s)),
        0 <= i < s.len(),
        start + entries_bytes(s.subrange(0, i)).len() <= b.len(),
    ensures
        ({
            let c = start + entries_bytes(s.subrange(0, i)).len();
            let k = RespFrame::SimpleString(SimpleString(s[i].0));
            let kl = simple_line(43u8, s[i].0).len();
            let vl = frame_bytes(s[i].1).len();
            &&& c < b.len() ==> b[c] == 43u8
            &&& b.len() < c + kl ==> cut_at(b, c, k)
            &&& b.len() >= c + kl ==> holds_at(b, c, k)
            &&& b.len() >= c + kl && b.len() < c + kl + vl ==> cut_at(b, c + kl, s[i].1)
            &&& b.len() >= c + kl + vl ==> holds_at(b, c + kl, s[i].1)
            &&& entries_bytes(s.subrange(0, i + 1)).len() == entries_bytes(s.subrange(0, i)).len()
                + kl + vl
        }),
{
    lemma_entries_prefix(s, i + 1);
    let p = s.subrange(0, i + 1);
    assert(p.drop_last() =~= s.subrange(0, i));
    let x = entries_bytes(s.subrange(0, i));
    let y = entries_bytes(p);
    let es = entries_bytes(s);
    let kb = simple_line(43u8, s[i].0);
    let vb = frame_bytes(s[i].1);
    let w = kb + vb;
    assert(y == x + kb + vb);
    let c = start + x.len();
    assert forall|j: int| 0 <= j < w.len() && c + j < b.len() implies b[c + j] == w[j] by {
        assert(b[start + (x.len() + j)] == es[x.len() + j]);
        assert(es[x.len() + j] == es.subrange(0, y.len() as int)[x.len() + j]);
        assert(y[x.len() + j] == w[j]);
    }
    if c < b.len() {
        assert(b[c + 0] == w[0]);
    }
    assert forall|j: int| 0 <= j < kb.len() && c + j < b.len() implies b[c + j] == kb[j] by {
        assert(b[c + j] == w[j]);
    }
    assert(frame_bytes(RespFrame::SimpleString(SimpleString(s[i].0))) == kb);
    if b.len() >= c + kb.len() {
        assert forall|j: int| 0 <= j < kb.len() implies b.subrange(c, c + kb.len())[j] == kb[j] by {
            assert(b[c + j] == w[j]);
        }
        assert(b.subrange(c, c + kb.len()) =~= kb);
    }
    let c2 = c + kb.len();
    assert forall|j: int| 0 <= j < vb.len() && c2 + j < b.len() implies b[c2 + j] == vb[j] by {
        assert(b[c + (kb.len() + j)] == w[kb.len() + j]);
    }
    if b.len() >= c2 + vb.len() {
        assert(b.subrange(c2, c2 + vb.len()) =~= vb);
    }
}

/// A simple string or error held at `pos`: its text sits on one line right after the tag.
proof fn lemma_text_line_at(b: Seq<u8>, pos: int, f: RespFrame)
    requires
        frame_wf(f),
        holds_at(b, pos, f),
        b[pos] == 43u8 || b[pos] == 45u8,
    ensures
        ({
            let t = match f {
                RespFrame::SimpleString(x) => text_bytes(x.0),
                RespFrame::Error(x) => text_bytes(x.0),
                _ => Seq::empty(),
            };
            &&& frame_bytes(f).len() == t.len() + 3
            &&& single_line(b.subrange(pos + 1, pos + 1 + t.len()))
            &&& b.subrange(pos + 1, pos + 1 + t.len()) == t
            &&& valid_utf8(t)
            &&& b[pos + 1 + t.len()] == 13u8
            &&& b[pos + 2 + t.len()] == 10u8
        }),
{
    lemma_tag(b, pos, f);
    match f {
        RespFrame::SimpleString(x) => {
            lemma_line_at(b, pos, 43u8, text_bytes(x.0));
        },
        RespFrame::Error(x) => {
            lemma_line_at(b, pos, 45u8, text_bytes(x.0));
        },
        _ => {},
    }
}

proof fn lemma_decimal_single_line(n: nat)
    ensures
        single_line(decimal(n)),
        decimal(n).len() >= 1,
        48 <= decimal(n)[0] <= 57,
{
    lemma_decimal_digits(n);
    lemma_decimal_nonempty(n);
}

/// The magnitude of an integer.
pub open spec fn magnitude(i: int) -> nat {
    if i < 0 {
        (-i) as nat
    } else {
        i as nat
    }
}

/// An integer held at `pos`: its sign and digits sit on one line right after the tag.
proof fn lemma_integer_line_at(b: Seq<u8>, pos: int, f: RespFrame)
    requires
        holds_at(b, pos, f),
        b[pos] == 58u8,
    ensures
        f is Integer,
        ({
            let i = f->Integer_0 as int;
            let t = signed_decimal(i);
            &&& frame_bytes(f).len() == t.len() + 3
            &&& t.len() >= 2
            &&& single_line(b.subrange(pos + 1, pos + 1 + t.len()))
            &&& b.subrange(pos + 2, pos + 1 + t.len()) == decimal(magnitude(i))
            &&& b[pos + 1] == if i < 0 { 45u8 } else { 43u8 }
            &&& b[pos + 1 + t.len()] == 13u8
            &&& b[pos + 2 + t.len()] == 10u8
        }),
{
    lemma_tag(b, pos, f);
    let i = f->Integer_0 as int;
    let t = signed_decimal(i);
    lemma_decimal_single_line(magnitude(i));
    lemma_line_at(b, pos, 58u8, t);
    let x = b.subrange(pos + 1, pos + 1 + t.len());
    assert(x[0] == b[pos + 1]);
    assert(b.subrange(pos + 2, pos + 1 + t.len()) =~= x.subrange(1, t.len() as int));
    assert(t.subrange(1, t.len() as int) =~= decimal(magnitude(i)));
    assert forall|j: int| 0 <= j < t.len() implies t[j] != 13u8 && t[j] != 10u8 by {
        if j > 0 {
            assert(t[j] == decimal(magnitude(i))[j - 1]);
        }
    }
}

/// A null or a boolean held at `pos`: the line after the tag is empty, or one letter.
proof fn lemma_marker_line_at(b: Seq<u8>, pos: int, f: RespFrame)
    requires
        holds_at(b, pos, f),
        b[pos] == 95u8 || b[pos] == 35u8,
    ensures
        f is Null || f is Boolean,
        f is Null ==> frame_bytes(f).len() == 3 && b[pos] == 95u8 && b[pos + 1] == 13u8 && b[pos
            + 2] == 10u8,
        f is Boolean ==> frame_bytes(f).len() == 4 && b[pos] == 35u8 && b[pos + 1] == (if f->Boolean_0 {
            116u8
        } else {
            102u8
        }) && b[pos + 2] == 13u8 && b[pos + 3] == 10u8,
{
    lemma_tag(b, pos, f);
    let x = b.subrange(pos, pos + frame_bytes(f).len());
    assert(x[0] == b[pos]);
    assert(x[1] == b[pos + 1]);
    assert(x[2] == b[pos + 2]);
    if f is Boolean {
        assert(x[3] == b[pos + 3]);
    }
}

/// The line of a null or a boolean ends where its wire form says.
proof fn lemma_marker_line_ends(b: Seq<u8>, pos: int, f: RespFrame)
    requires
        holds_at(b, pos, f),
        f is Null || f is Boolean,
        f is Null ==> b[pos + 1] == 13u8 && b[pos + 2] == 10u8,
        f is Boolean ==> (b[pos + 1] == 116u8 || b[pos + 1] == 102u8) && b[pos + 2] == 13u8 && b[pos
            + 3] == 10u8,
    ensures
        ({
            let k: int = if f is Null { 0 } else { 1 };
            &&& single_line(b.subrange(pos + 1, pos + 1 + k))
            &&& b[pos + 1 + k] == 13u8
            &&& b[pos + 1 + k + 1] == 10u8
            &&& frame_bytes(f).len() == k + 3
        }),
{
    if f is Null {
        assert(b.subrange(pos + 1, pos + 1 + 0) =~= Seq::<u8>::empty());
    } else {
        assert(b.subrange(pos + 1, pos + 1 + 1) =~= seq![b[pos + 1]]);
    }
}

/// A bulk string or legacy null bulk string held at `pos`: where its header and payload stand.
proof fn lemma_bulk_at(b: Seq<u8>, pos: int, f: RespFrame)
    requires
        holds_at(b, pos, f),
        b[pos] == 36u8,
    ensures
        f is BulkString || f is NullBulkString,
        f is NullBulkString ==> frame_bytes(f).len() == 5 && b.subrange(pos + 1, pos + 3) == seq![
            45u8,
            49u8,
        ] && b[pos + 3] == 13u8 && b[pos + 4] == 10u8,
        f is BulkString ==> ({
            let data = f->BulkString_0.0@;
            let d = decimal(data.len());
            &&& frame_bytes(f).len() == d.len() + data.len() + 5
            &&& single_line(b.subrange(pos + 1, pos + 1 + d.len()))
            &&& b.subrange(pos + 1, pos + 1 + d.len()) == d
            &&& b[pos + 1] != 45u8
            &&& b[pos + 1 + d.len()] == 13u8
            &&& b[pos + 2 + d.len()] == 10u8
            &&& b[pos + 3 + d.len() + data.len()] == 13u8
            &&& b[pos + 4 + d.len() + data.len()] == 10u8
        }),
{
    lemma_tag(b, pos, f);
    let x = b.subrange(pos, pos + frame_bytes(f).len());
    if f is NullBulkString {
        assert(x[1] == b[pos + 1]);
        assert(x[2] == b[pos + 2]);
        assert(x[3] == b[pos + 3]);
        assert(x[4] == b[pos + 4]);
        assert(b.subrange(pos + 1, pos + 3) =~= seq![45u8, 49u8]);
    } else {
        let data = f->BulkString_0.0@;
        let d = decimal(data.len());
        lemma_decimal_single_line(data.len());
        let h = header(36u8, data.len());
        assert(x == h + data + crlf());
        assert(b.subrange(pos, pos + h.len()) =~= x.subrange(0, h.len() as int));
        assert(x.subrange(0, h.len() as int) =~= h);
        lemma_line_at(b, pos, 36u8, d);
        assert(b.subrange(pos + 1, pos + 1 + d.len())[0] == b[pos + 1]);
        assert(x[3int + d.len() + data.len()] == b[pos + 3 + d.len() + data.len()]);
        assert(x[4int + d.len() + data.len()] == b[pos + 4 + d.len() + data.len()]);
    }
}

/// The frame holds no double and no set, at any depth.
pub open spec fn no_double_or_set(f: RespFrame) -> bool
    decreases f,
{
    match f {
        RespFrame::Double(_) => false,
        RespFrame::Array(a) => all_no_double_or_set(a.0@),
        RespFrame::RespSet(_) => false,
        RespFrame::RespMap(m) => entries_no_double_or_set(m.0@),
        _ => true,
    }
}

pub open spec fn all_no_double_or_set(s: Seq<RespFrame>) -> bool
    decreases s,
{
    if s.len() == 0 {
        true
    } else {
        all_no_double_or_set(s.drop_last()) && no_double_or_set(s.last())
    }
}

pub open spec fn entries_no_double_or_set(s: Seq<(String, RespFrame)>) -> bool
    decreases s,
{
    if s.len() == 0 {
        true
    } else {
        entries_no_double_or_set(s.drop_last()) && no_double_or_set(s.last().1)
    }
}

proof fn lemma_all_no_double_or_set_index(s: Seq<RespFrame>, i: int)
    requires
        all_no_double_or_set(s),
        0 <= i < s.len(),
    ensures
        no_double_or_set(s[i]),
    decreases s.len(),
{
    if i < s.len() - 1 {
        lemma_all_no_double_or_set_index(s.drop_last(), i);
    }
}

/// The members of an array or a set.
pub open spec fn members(f: RespFrame) -> Seq<RespFrame> {
    match f {
        RespFrame::Array(a) => a.0@,
        RespFrame::RespSet(x) => x.0@,
        _ => Seq::empty(),
    }
}

/// The first `i` frames' wire bytes begin the wire bytes of all of them.
proof fn lemma_frames_prefix(s: Seq<RespFrame>, i: int)
    requires
        0 <= i <= s.len(),
    ensures
        frames_bytes(s.subrange(0, i)) == frames_bytes(s).subrange(0, frames_bytes(s.subrange(0, i)).len() as int),
        frames_bytes(s.subrange(0, i)).len() <= frames_bytes(s).len(),
    decreases s.len() - i,
{
    if i == s.len() {
        assert(s.subrange(0, i) =~= s);
        assert(frames_bytes(s).subrange(0, frames_bytes(s).len() as int) =~= frames_bytes(s));
    } else {
        lemma_frames_prefix(s, i + 1);
        let p = s.subrange(0, i + 1);
        assert(p.drop_last() =~= s.subrange(0, i));
        let x = frames_bytes(s.subrange(0, i));
        let y = frames_bytes(p);
        assert(y == x + frame_bytes(s[i]));
        assert(x =~= y.subrange(0, x.len() as int));
        assert(frames_bytes(s).subrange(0, x.len() as int) =~= frames_bytes(s).subrange(0, y.len() as int).subrange(0, x.len() as int));
    }
}

/// Member `i` of a sequence held at `start` stands right after the members before it.
proof fn lemma_member_at(b: Seq<u8>, start: int, s: Seq<RespFrame>, i: int)
    requires
        0 <= start,
        start + frames_bytes(s).len() <= b.len(),
        b.subrange(start, start + frames_bytes(s).len()) == frames_bytes(s),
        0 <= i < s.len(),
    ensures
        holds_at(b, start + frames_bytes(s.subrange(0, i)).len(), s[i]),
        frames_bytes(s.subrange(0, i + 1)).len() == frames_bytes(s.subrange(0, i)).len()
            + frame_bytes(s[i]).len(),
{
    lemma_frames_prefix(s, i + 1);
    let p = s.subrange(0, i + 1);
    assert(p.drop_last() =~= s.subrange(0, i));
    let x = frames_bytes(s.subrange(0, i));
    let y = frames_bytes(p);
    let fs = frames_bytes(s);
    assert(y == x + frame_bytes(s[i]));
    let c = start + x.len();
    assert(fs.subrange(x.len() as int, y.len() as int) =~= y.subrange(x.len() as int, y.len() as int));
    assert(y.subrange(x.len() as int, y.len() as int) =~= frame_bytes(s[i]));
    assert forall|j: int| 0 <= j < frame_bytes(s[i]).len() implies b[c + j] == frame_bytes(s[i])[j] by {
        assert(b[c + j] == b.subrange(start, start + fs.len())[x.len() + j]);
        assert(fs[x.len() + j] == fs.subrange(x.len() as int, y.len() as int)[j]);
    }
    assert(b.subrange(c, c + frame_bytes(s[i]).len()) =~= frame_bytes(s[i]));
}

/// The entries of a map.
pub open spec fn entries(f: RespFrame) -> Seq<(String, RespFrame)> {
    match f {
        RespFrame::RespMap(m) => m.0@,
        _ => Seq::empty(),
    }
}

proof fn lemma_entries_no_double_or_set_index(s: Seq<(String, RespFrame)>, i: int)
    requires
        entries_no_double_or_set(s),
        0 <= i < s.len(),
    ensures
        no_double_or_set(s[i].1),
    decreases s.len(),
{
    if i < s.len() - 1 {
        lemma_entries_no_double_or_set_index(s.drop_last(), i);
    }
}

proof fn lemma_entries_prefix(s: Seq<(String, RespFrame)>, i: int)
    requires
        0 <= i <= s.len(),
    ensures
        entries_bytes(s.subrange(0, i)) == entries_bytes(s).subrange(0, entries_bytes(s.subrange(0, i)).len() as int),
        entries_bytes(s.subrange(0, i)).len() <= entries_bytes(s).len(),
    decreases s.len() - i,
{
    if i == s.len() {
        assert(s.subrange(0, i) =~= s);
        assert(entries_bytes(s).subrange(0, entries_bytes(s).len() as int) =~= entries_bytes(s));
    } else {
        lemma_entries_prefix(s, i + 1);
        let p = s.subrange(0, i + 1);
        assert(p.drop_last() =~= s.subrange(0, i));
        let x = entries_bytes(s.subrange(0, i));
        let y = entries_bytes(p);
        assert(y == x + simple_line(43u8, s[i].0) + frame_bytes(s[i].1));
        assert(x =~= y.subrange(0, x.len() as int));
        assert(entries_bytes(s).subrange(0, x.len() as int) =~= entries_bytes(s).subrange(0, y.len() as int).subrange(0, x.len() as int));
    }
}

/// Entry `i` of a map held at `start`: its key line, then its value, right after the entries
/// before it.
proof fn lemma_entry_at(b: Seq<u8>, start: int, s: Seq<(String, RespFrame)>, i: int)
    requires
        0 <= start,
        start + entries_bytes(s).len() <= b.len(),
        b.subrange(start, start + entries_bytes(s).len()) == entries_bytes(s),
        0 <= i < s.len(),
    ensures
        ({
            let c = start + entries_bytes(s.subrange(0, i)).len();
            let k = RespFrame::SimpleString(SimpleString(s[i].0));
            &&& holds_at(b, c, k)
            &&& holds_at(b, c + simple_line(43u8, s[i].0).len(), s[i].1)
            &&& entries_bytes(s.subrange(0, i + 1)).len() == entries_bytes(s.subrange(0, i)).len()
                + simple_line(43u8, s[i].0).len() + frame_bytes(s[i].1).len()
        }),
{
    lemma_entries_prefix(s, i + 1);
    let p = s.subrange(0, i + 1);
    assert(p.drop_last() =~= s.subrange(0, i));
    let x = entries_bytes(s.subrange(0, i));
    let y = entries_bytes(p);
    let es = entries_bytes(s);
    let kl = simple_line(43u8, s[i].0);
    let vb = frame_bytes(s[i].1);
    assert(y == x + kl + vb);
    let c = start + x.len();
    assert forall|j: int| 0 <= j < kl.len() + vb.len() implies b[c + j] == (kl + vb)[j] by {
        assert(b[c + j] == b.subrange(start, start + es.len())[x.len() + j]);
        assert(es[x.len() + j] == es.subrange(0, y.len() as int)[x.len() + j]);
        assert(y[x.len() + j] == (kl + vb)[j]);
    }
    assert forall|j: int| 0 <= j < kl.len() implies b[c + j] == kl[j] by {
        assert(b[c + j] == (kl + vb)[j]);
    }
    assert(b.subrange(c, c + kl.len()) =~= kl);
    assert forall|j: int| 0 <= j < vb.len() implies b[c + kl.len() + j] == vb[j] by {
        assert(b[c + kl.len() + j] == (kl + vb)[kl.len() + j]);
    }
    assert(b.subrange(c + kl.len(), c + kl.len() + vb.len()) =~= vb);
}

/// A map held at `pos`: where its header and entries stand.
proof fn lemma_map_at(b: Seq<u8>, pos: int, f: RespFrame)
    requires
        holds_at(b, pos, f),
        b[pos] == 37u8,
    ensures
        f is RespMap,
        ({
            let s = entries(f);
            let d = decimal(s.len());
            let start = pos + 3 + d.len();
            &&& frame_bytes(f).len() == d.len() + 3 + entries_bytes(s).len()
            &&& single_line(b.subrange(pos + 1, pos + 1 + d.len()))
            &&& b.subrange(pos + 1, pos + 1 + d.len()) == d
            &&& b[pos + 1 + d.len()] == 13u8
            &&& b[pos + 2 + d.len()] == 10u8
            &&& b.subrange(start, start + entries_bytes(s).len()) == entries_bytes(s)
        }),
{
    lemma_tag(b, pos, f);
    let x = b.subrange(pos, pos + frame_bytes(f).len());
    let s = entries(f);
    let d = decimal(s.len());
    lemma_decimal_single_line(s.len());
    let h = header(37u8, s.len());
    assert(x == h + entries_bytes(s));
    assert(b.subrange(pos, pos + h.len()) =~= x.subrange(0, h.len() as int));
    assert(x.subrange(0, h.len() as int) =~= h);
    lemma_line_at(b, pos, 37u8, d);
    let start = pos + 3 + d.len();
    assert(b.subrange(start, start + entries_bytes(s).len()) =~= x.subrange(h.len() as int, x.len() as int));
    assert(x.subrange(h.len() as int, x.len() as int) =~= entries_bytes(s));
}

proof fn lemma_entries_len(s: Seq<(String, RespFrame)>)
    ensures
        entries_bytes(s).len() >= s.len(),
    decreases s.len(),
{
    if s.len() > 0 {
        lemma_entries_len(s.drop_last());
    }
}

proof fn lemma_simple_line_text(t: u8, x: String, y: String)
    requires
        simple_line(t, x) == simple_line(t, y),
    ensures
        text_bytes(x) == text_bytes(y),
{
    let a = simple_line(t, x);
    assert(text_bytes(x) =~= a.subrange(1, a.len() - 2));
    assert(text_bytes(y) =~= a.subrange(1, a.len() - 2));
}

proof fn lemma_frame_len(f: RespFrame)
    ensures
        frame_bytes(f).len() >= 3,
{
    let fb = frame_bytes(f);
    assert(fb.subrange(0, fb.len() as int) =~= fb);
    lemma_tag(fb, 0, f);
}

proof fn lemma_frames_len(s: Seq<RespFrame>)
    ensures
        frames_bytes(s).len() >= s.len(),
    decreases s.len(),
{
    if s.len() > 0 {
        lemma_frames_len(s.drop_last());
        lemma_frame_len(s.last());
    }
}

/// An array, legacy null array or set held at `pos`: where its header and members stand.
proof fn lemma_sequence_at(b: Seq<u8>, pos: int, f: RespFrame)
    requires
        holds_at(b, pos, f),
        b[pos] == 42u8 || b[pos] == 126u8,
    ensures
        f is Array || f is RespSet || f is NullArray,
        f is NullArray ==> frame_bytes(f).len() == 5 && b.subrange(pos + 1, pos + 3) == seq![
            45u8,
            49u8,
        ] && b[pos + 3] == 13u8 && b[pos + 4] == 10u8 && b[pos] == 42u8,
        !(f is NullArray) ==> ({
            let s = members(f);
            let d = decimal(s.len());
            let start = pos + 3 + d.len();
            &&& frame_bytes(f).len() == d.len() + 3 + frames_bytes(s).len()
            &&& single_line(b.subrange(pos + 1, pos + 1 + d.len()))
            &&& b.subrange(pos + 1, pos + 1 + d.len()) == d
            &&& b[pos + 1] != 45u8
            &&& b[pos + 1 + d.len()] == 13u8
            &&& b[pos + 2 + d.len()] == 10u8
            &&& b.subrange(start, start + frames_bytes(s).len()) == frames_bytes(s)
            &&& (b[pos] == 42u8 <==> f is Array)
        }),
{
    lemma_tag(b, pos, f);
    let x = b.subrange(pos, pos + frame_bytes(f).len());
    if f is NullArray {
        assert(x[1] == b[pos + 1]);
        assert(x[2] == b[pos + 2]);
        assert(x[3] == b[pos + 3]);
        assert(x[4] == b[pos + 4]);
        assert(b.subrange(pos + 1, pos + 3) =~= seq![45u8, 49u8]);
    } else {
        let s = members(f);
        let d = decimal(s.len());
        lemma_decimal_single_line(s.len());
        let h = header(tag_of(f), s.len());
        assert(x == h + frames_bytes(s));
        assert(b.subrange(pos, pos + h.len()) =~= x.subrange(0, h.len() as int));
        assert(x.subrange(0, h.len() as int) =~= h);
        lemma_line_at(b, pos, tag_of(f), d);
        assert(b.subrange(pos + 1, pos + 1 + d.len())[0] == b[pos + 1]);
        let start = pos + 3 + d.len();
        assert(b.subrange(start, start + frames_bytes(s).len()) =~= x.subrange(h.len() as int, x.len() as int));
        assert(x.subrange(h.len() as int, x.len() as int) =~= frames_bytes(s));
    }
}

/// Copies `b[lo..hi]`.
fn copy_range(b: &[u8], lo: usize, hi: usize) -> (r: Vec<u8>)
    requires
        b@.len() < usize::MAX,
        lo <= hi <= b@.len(),
    ensures
        r@ == b@.subrange(lo as int, hi as int),
{
    let mut v: Vec<u8> = Vec::new();
    let mut i: usize = lo;
    while i < hi
        invariant
            lo <= i <= hi <= b@.len(),
            v@ == b@.subrange(lo as int, i as int),
        decreases hi - i,
    {
        v.push(b[i]);
        i = i + 1;
        proof {
            assert(v@ =~= b@.subrange(lo as int, i as int));
        }
    }
    v
}

/// The text of the line that starts at `start`: the position of its `\r\n`.
fn line_end(b: &[u8], start: usize) -> (r: Result<usize, DecodeError>)
    requires
        b@.len() < usize::MAX,
        start <= b@.len(),
    ensures
        r matches Ok(e) ==> start <= e && e + 2 <= b@.len() && single_line(
            b@.subrange(start as int, e as int),
        ) && b@[e as int] == 13u8 && b@[e + 1] == 10u8,
        r matches Err(x) ==> x != DecodeError::UnsupportedType,
        forall|k: int|
            0 <= k && start + k + 2 <= b@.len() && single_line(
                #[trigger] b@.subrange(start as int, start + k),
            ) && b@[start + k] == 13u8 && b@[start + k + 1] == 10u8 ==> r == Ok::<usize, DecodeError>(
                (start + k) as usize,
            ),
        forall|t: Seq<u8>|
            single_line(t) && #[trigger] cut_by(b@, start as int, t + crlf()) ==> r == Err::<
                usize,
                DecodeError,
            >(DecodeError::Incomplete),
{
    let mut i: usize = start;
    while i < b.len() && b[i] != 13u8 && b[i] != 10u8
        invariant
            start <= i <= b@.len(),
            single_line(b@.subrange(start as int, i as int)),
        decreases b@.len() - i,
    {
        proof {
            assert(b@.subrange(start as int, i + 1) =~= b@.subrange(start as int, i as int).push(
                b@[i as int],
            ));
        }
        i = i + 1;
    }
    proof {
        assert forall|k: int|
            0 <= k && start + k + 2 <= b@.len() && single_line(
                #[trigger] b@.subrange(start as int, start + k),
            ) && b@[start + k] == 13u8 && b@[start + k + 1] == 10u8 implies i == start + k by {
            if i < start + k {
                assert(b@.subrange(start as int, start + k)[i - start] == b@[i as int]);
            } else if i > start + k {
                assert(b@.subrange(start as int, i as int)[k] == b@[start + k]);
            }
        }
        assert forall|t: Seq<u8>| single_line(t) && #[trigger] cut_by(b@, start as int, t + crlf()) implies i
            == b@.len() || (i == start + t.len() && i + 1 == b@.len() && b@[i as int] == 13u8) by {
            let w = t + crlf();
            if i < b@.len() {
                let j = i - start;
                assert(b@[start + j] == w[j]);
                if j < t.len() {
                    assert(w[j] == t[j]);
                }
                assert(j >= t.len());
                if j > t.len() {
                    assert(b@[start + t.len()] == w[t.len() as int]);
                    assert(b@.subrange(start as int, i as int)[t.len() as int] == b@[start + t.len()]);
                }
            }
        }
    }
    if i == b.len() {
        Err(DecodeError::Incomplete)
    } else if b[i] == 10u8 {
        Err(DecodeError::Malformed)
    } else if i + 1 == b.len() {
        Err(DecodeError::Incomplete)
    } else if b[i + 1] == 10u8 {
        Ok(i)
    } else {
        Err(DecodeError::Malformed)
    }
}

/// Reads `b[lo..hi]` as decimal digits without leading zeros.
fn parse_decimal(b: &[u8], lo: usize, hi: usize) -> (r: Option<u64>)
    requires
        b@.len() < usize::MAX,
        lo <= hi <= b@.len(),
    ensures
        r matches Some(n) ==> b@.subrange(lo as int, hi as int) == decimal(n as nat),
        forall|n: nat|
            n <= 0xffff_ffff_ffff_ffff && b@.subrange(lo as int, hi as int) == #[trigger] decimal(n)
                ==> r == Some(n as u64),
{
    let ghost s = b@.subrange(lo as int, hi as int);
    if lo >= hi {
        proof {
            assert forall|n: nat| s == #[trigger] decimal(n) implies false by {
                lemma_decimal_nonempty(n);
            }
        }
        return None;
    }
    if b[lo] == 48u8 {
        if hi == lo + 1 {
            proof {
                assert(s =~= decimal(0));
                assert forall|n: nat| s == #[trigger] decimal(n) implies n == 0 by {
                    lemma_decimal_injective(n, 0);
                }
            }
            return Some(0);
        }
        proof {
            assert forall|n: nat| s == #[trigger] decimal(n) implies false by {
                lemma_decimal_shape(n);
                assert(s[0] == 48u8);
                if n >= 1 {
                } else {
                    assert(decimal(n).len() == 1);
                }
            }
        }
        return None;
    }
    let mut acc: u64 = 0;
    let mut i: usize = lo;
    while i < hi
        invariant
            lo <= i <= hi <= b@.len(),
            s == b@.subrange(lo as int, hi as int),
            b@[lo as int] != 48u8,
            i == lo ==> acc == 0,
            i > lo ==> acc >= 1 && b@.subrange(lo as int, i as int) == decimal(acc as nat),
            forall|n: nat| s == #[trigger] decimal(n) ==> forall|j: int|
                0 <= j < i - lo ==> 48 <= #[trigger] s[j] <= 57,
        decreases hi - i,
    {
        let c = b[i];
        if c < 48u8 || c > 57u8 {
            proof {
                assert forall|n: nat| s == #[trigger] decimal(n) implies false by {
                    lemma_decimal_digits(n);
                    assert(s[i - lo] == c);
                }
            }
            return None;
        }
        let d: u64 = (c - 48u8) as u64;
        let ghost next = b@.subrange(lo as int, i + 1);
        proof {
            if i == lo {
                assert(next =~= seq![c]);
                assert(decimal(d as nat) == seq![c]);
            } else {
                let m: nat = (acc * 10 + d) as nat;
                assert(m / 10 == acc as nat && m % 10 == d as nat) by (nonlinear_arith)
                    requires
                        m == acc * 10 + d,
                        d < 10,
                ;
                assert(next =~= b@.subrange(lo as int, i as int).push(c));
                assert(decimal(m) == next);
            }
        }
        if acc > (0xffff_ffff_ffff_ffffu64 - d) / 10 {
            proof {
                let m: nat = (acc * 10 + d) as nat;
                assert(m > 0xffff_ffff_ffff_ffffnat) by (nonlinear_arith)
                    requires
                        m == acc * 10 + d,
                        acc > (0xffff_ffff_ffff_ffffnat - d) / 10,
                        d < 10,
                ;
                assert forall|n: nat| n <= 0xffff_ffff_ffff_ffff && s == #[trigger] decimal(
                    n,
                ) implies false by {
                    assert(next =~= s.subrange(0, i + 1 - lo));
                    lemma_decimal_prefix_le(m, n, i + 1 - lo);
                }
            }
            return None;
        }
        acc = acc * 10 + d;
        i = i + 1;
    }
    proof {
        assert forall|n: nat| s == #[trigger] decimal(n) implies n == acc by {
            lemma_decimal_injective(n, acc as nat);
        }
    }
    Some(acc)
}

/// True when `b[lo..hi]` is `-1`, the length of a legacy null.
fn is_minus_one(b: &[u8], lo: usize, hi: usize) -> (r: bool)
    requires
        b@.len() < usize::MAX,
        lo <= hi <= b@.len(),
    ensures
        r <==> b@.subrange(lo as int, hi as int) == seq![45u8, 49u8],
{
    let r = hi - lo == 2 && b[lo] == 45u8 && b[lo + 1] == 49u8;
    proof {
        let s = b@.subrange(lo as int, hi as int);
        if s == seq![45u8, 49u8] {
            assert(s.len() == 2 && s[0] == 45u8 && s[1] == 49u8);
        }
        if hi - lo == 2 {
            let s = b@.subrange(lo as int, hi as int);
            assert(s == seq![45u8, 49u8] ==> s[0] == 45u8 && s[1] == 49u8);
            if r {
                assert(s =~= seq![45u8, 49u8]);
            }
        }
    }
    r
}

/// Reads a simple string or simple error that starts at `pos`.
fn decode_text(b: &[u8], pos: usize) -> (r: Result<(RespFrame, usize), DecodeError>)
    requires
        b@.len() < usize::MAX,
        pos < b@.len(),
        b@[pos as int] == 43u8 || b@[pos as int] == 45u8,
    ensures
        malformed_text(b@, pos as int) ==> r == Err::<(RespFrame, usize), DecodeError>(
            DecodeError::Malformed,
        ),
        r != Err::<(RespFrame, usize), DecodeError>(DecodeError::UnsupportedType),
        r matches Ok((f, end)) ==> pos < end <= b@.len() && b@.subrange(pos as int, end as int)
            == frame_bytes(f) && frame_wf(f) && tag_of(f) == b@[pos as int],
        forall|f: RespFrame|
            frame_wf(f) && #[trigger] holds_at(b@, pos as int, f) ==> succeeds_to(
                r,
                pos + frame_bytes(f).len(),
            ),
        forall|f: RespFrame|
            frame_wf(f) && no_double_or_set(f) && #[trigger] cut_at(b@, pos as int, f) ==> r == Err::<
                (RespFrame, usize),
                DecodeError,
            >(DecodeError::Incomplete),
{
    let ghost held = exists|f: RespFrame| frame_wf(f) && #[trigger] holds_at(b@, pos as int, f);
    proof {
        if held {
            let f = choose|f: RespFrame| frame_wf(f) && #[trigger] holds_at(b@, pos as int, f);
            lemma_text_line_at(b@, pos as int, f);
        }
        if malformed_text(b@, pos as int) {
            let k = choose|k: int| #![trigger b@.subrange(pos + 1, pos + 1 + k)] line_at(b@, pos + 1, k) && !valid_utf8(b@.subrange(pos + 1, pos + 1 + k));
            assert(b@.subrange(pos + 1, pos + 1 + k) == b@.subrange(pos + 1, pos + 1 + k));
        }
    }
    let e = match line_end(b, pos + 1) {
        Ok(e) => e,
        Err(x) => {
            proof {
                assert forall|f: RespFrame| frame_wf(f) && no_double_or_set(f) && #[trigger] cut_at(b@, pos as int, f) implies x
                    == DecodeError::Incomplete by {
                    lemma_first_byte(f);
                    assert(b@[pos + 0] == frame_bytes(f)[0]);
                    lemma_line_frame_cut(b@, pos as int, f);
                }
            }
            return Err(x);
        },
    };
    proof {
        assert forall|f: RespFrame| frame_wf(f) && no_double_or_set(f) && #[trigger] cut_at(b@, pos as int, f) implies false by {
            lemma_first_byte(f);
            assert(b@[pos + 0] == frame_bytes(f)[0]);
            lemma_line_frame_cut(b@, pos as int, f);
        }
    }
    proof {
        assert forall|g: RespFrame| frame_wf(g) && #[trigger] holds_at(b@, pos as int, g) implies e + 2
            == pos + frame_bytes(g).len() by {
            lemma_text_line_at(b@, pos as int, g);
        }
    }
    proof {
        assert forall|k: int| #[trigger] line_at(b@, pos + 1, k) implies k == e - pos - 1 by {
            assert(b@.subrange(pos + 1, pos + 1 + k) == b@.subrange(pos + 1, pos + 1 + k));
        }
        if malformed_text(b@, pos as int) {
            let k = choose|k: int| #![trigger b@.subrange(pos + 1, pos + 1 + k)] line_at(b@, pos + 1, k) && !valid_utf8(b@.subrange(pos + 1, pos + 1 + k));
            assert(line_at(b@, pos + 1, k));
        }
    }
    let bytes = copy_range(b, pos + 1, e);
    let s = match string_from_utf8(bytes) {
        Some(s) => s,
        None => {
            proof {
                if held {
                    let f = choose|f: RespFrame| frame_wf(f) && #[trigger] holds_at(b@, pos as int, f);
                    lemma_text_line_at(b@, pos as int, f);
                }
            }
            return Err(DecodeError::Malformed);
        },
    };
    proof {
        assert(text_bytes(s) == b@.subrange(pos + 1, e as int));
        assert(b@.subrange(pos as int, e + 2) =~= simple_line(b@[pos as int], s));
    }
    if b[pos] == 43u8 {
        Ok((RespFrame::SimpleString(SimpleString(s)), e + 2))
    } else {
        Ok((RespFrame::Error(SimpleError(s)), e + 2))
    }
}

/// Reads an integer that starts at `pos`: an explicit sign, then its magnitude.
fn decode_integer(b: &[u8], pos: usize) -> (r: Result<(RespFrame, usize), DecodeError>)
    requires
        b@.len() < usize::MAX,
        pos < b@.len(),
        b@[pos as int] == 58u8,
    ensures
        r != Err::<(RespFrame, usize), DecodeError>(DecodeError::UnsupportedType),
        r matches Ok((f, end)) ==> pos < end <= b@.len() && b@.subrange(pos as int, end as int)
            == frame_bytes(f) && frame_wf(f),
        forall|f: RespFrame|
            frame_wf(f) && #[trigger] holds_at(b@, pos as int, f) ==> succeeds_to(
                r,
                pos + frame_bytes(f).len(),
            ),
        forall|f: RespFrame|
            frame_wf(f) && no_double_or_set(f) && #[trigger] cut_at(b@, pos as int, f) ==> r == Err::<
                (RespFrame, usize),
                DecodeError,
            >(DecodeError::Incomplete),
{
    let ghost held = exists|f: RespFrame| frame_wf(f) && #[trigger] holds_at(b@, pos as int, f);
    let ghost target = choose|f: RespFrame| frame_wf(f) && #[trigger] holds_at(b@, pos as int, f);
    proof {
        if held {
            lemma_integer_line_at(b@, pos as int, target);
        }
    }
    let e = match line_end(b, pos + 1) {
        Ok(e) => e,
        Err(x) => {
            proof {
                assert forall|f: RespFrame| frame_wf(f) && no_double_or_set(f) && #[trigger] cut_at(b@, pos as int, f) implies x
                    == DecodeError::Incomplete by {
                    lemma_first_byte(f);
                    assert(b@[pos + 0] == frame_bytes(f)[0]);
                    lemma_line_frame_cut(b@, pos as int, f);
                }
            }
            return Err(x);
        },
    };
    proof {
        assert forall|f: RespFrame| frame_wf(f) && no_double_or_set(f) && #[trigger] cut_at(b@, pos as int, f) implies false by {
            lemma_first_byte(f);
            assert(b@[pos + 0] == frame_bytes(f)[0]);
            lemma_line_frame_cut(b@, pos as int, f);
        }
    }
    proof {
        assert forall|g: RespFrame| frame_wf(g) && #[trigger] holds_at(b@, pos as int, g) implies e + 2
            == pos + frame_bytes(g).len() by {
            lemma_integer_line_at(b@, pos as int, g);
        }
    }
    if e < pos + 3 {
        return Err(DecodeError::Malformed);
    }
    let sign = b[pos + 1];
    let n = match parse_decimal(b, pos + 2, e) {
        Some(n) => n,
        None => return Err(DecodeError::Malformed),
    };
    proof {
        if held {
            let m = magnitude(target->Integer_0 as int);
            assert(b@.subrange(pos + 2, e as int) == decimal(m));
            assert(n == m);
        }
    }
    let i: i64 = if sign == 43u8 && n <= 0x7fff_ffff_ffff_ffffu64 {
        n as i64
    } else if sign == 45u8 && n >= 1 && n <= 0x8000_0000_0000_0000u64 {
        (0i128 - n as i128) as i64
    } else {
        return Err(DecodeError::Malformed);
    };
    proof {
        assert(b@.subrange(pos + 1, e as int) =~= seq![sign] + b@.subrange(pos + 2, e as int));
        assert(b@.subrange(pos as int, e + 2) =~= seq![58u8] + signed_decimal(i as int) + crlf());
    }
    Ok((RespFrame::Integer(i), e + 2))
}

/// Reads a line whose whole text is fixed: null, true or false.
fn decode_marker(b: &[u8], pos: usize) -> (r: Result<(RespFrame, usize), DecodeError>)
    requires
        b@.len() < usize::MAX,
        pos < b@.len(),
        b@[pos as int] == 95u8 || b@[pos as int] == 35u8,
    ensures
        r != Err::<(RespFrame, usize), DecodeError>(DecodeError::UnsupportedType),
        r matches Ok((f, end)) ==> pos < end <= b@.len() && b@.subrange(pos as int, end as int)
            == frame_bytes(f) && frame_wf(f),
        forall|f: RespFrame|
            frame_wf(f) && #[trigger] holds_at(b@, pos as int, f) ==> succeeds_to(
                r,
                pos + frame_bytes(f).len(),
            ),
        forall|f: RespFrame|
            frame_wf(f) && no_double_or_set(f) && #[trigger] cut_at(b@, pos as int, f) ==> r == Err::<
                (RespFrame, usize),
                DecodeError,
            >(DecodeError::Incomplete),
{
    let ghost held = exists|f: RespFrame| frame_wf(f) && #[trigger] holds_at(b@, pos as int, f);
    let ghost target = choose|f: RespFrame| frame_wf(f) && #[trigger] holds_at(b@, pos as int, f);
    proof {
        if held {
            lemma_marker_line_at(b@, pos as int, target);
            lemma_marker_line_ends(b@, pos as int, target);
        }
    }
    let e = match line_end(b, pos + 1) {
        Ok(e) => e,
        Err(x) => {
            proof {
                assert forall|f: RespFrame| frame_wf(f) && no_double_or_set(f) && #[trigger] cut_at(b@, pos as int, f) implies x
                    == DecodeError::Incomplete by {
                    lemma_first_byte(f);
                    assert(b@[pos + 0] == frame_bytes(f)[0]);
                    lemma_line_frame_cut(b@, pos as int, f);
                }
            }
            return Err(x);
        },
    };
    proof {
        assert forall|f: RespFrame| frame_wf(f) && no_double_or_set(f) && #[trigger] cut_at(b@, pos as int, f) implies false by {
            lemma_first_byte(f);
            assert(b@[pos + 0] == frame_bytes(f)[0]);
            lemma_line_frame_cut(b@, pos as int, f);
        }
    }
    proof {
        assert forall|g: RespFrame| frame_wf(g) && #[trigger] holds_at(b@, pos as int, g) implies e + 2
            == pos + frame_bytes(g).len() by {
            lemma_marker_line_at(b@, pos as int, g);
            lemma_marker_line_ends(b@, pos as int, g);
        }
    }
    if b[pos] == 95u8 && e == pos + 1 {
        proof {
            assert(b@.subrange(pos as int, e + 2) =~= frame_bytes(RespFrame::Null(RespNull)));
        }
        Ok((RespFrame::Null(RespNull), e + 2))
    } else if b[pos] == 35u8 && e == pos + 2 && (b[pos + 1] == 116u8 || b[pos + 1] == 102u8) {
        let v = b[pos + 1] == 116u8;
        proof {
            assert(b@.subrange(pos as int, e + 2) =~= frame_bytes(RespFrame::Boolean(v)));
        }
        Ok((RespFrame::Boolean(v), e + 2))
    } else {
        Err(DecodeError::Malformed)
    }
}

/// Reads a bulk string, or the legacy null bulk string, that starts at `pos`.
#[verifier::rlimit(60)]
fn decode_bulk(b: &[u8], pos: usize) -> (r: Result<(RespFrame, usize), DecodeError>)
    requires
        b@.len() < usize::MAX,
        pos < b@.len(),
        b@[pos as int] == 36u8,
    ensures
        malformed_bulk(b@, pos as int) ==> r == Err::<(RespFrame, usize), DecodeError>(
            DecodeError::Malformed,
        ),
        r != Err::<(RespFrame, usize), DecodeError>(DecodeError::UnsupportedType),
        r matches Ok((f, end)) ==> pos < end <= b@.len() && b@.subrange(pos as int, end as int)
            == frame_bytes(f) && frame_wf(f),
        forall|f: RespFrame|
            frame_wf(f) && #[trigger] holds_at(b@, pos as int, f) ==> succeeds_to(
                r,
                pos + frame_bytes(f).len(),
            ),
        forall|f: RespFrame|
            frame_wf(f) && no_double_or_set(f) && #[trigger] cut_at(b@, pos as int, f) ==> r == Err::<
                (RespFrame, usize),
                DecodeError,
            >(DecodeError::Incomplete),
{
    let ghost held = exists|f: RespFrame| frame_wf(f) && #[trigger] holds_at(b@, pos as int, f);
    let ghost target = choose|f: RespFrame| frame_wf(f) && #[trigger] holds_at(b@, pos as int, f);
    proof {
        if held {
            lemma_bulk_at(b@, pos as int, target);
            if target is NullBulkString {
                assert(single_line(b@.subrange(pos + 1, pos + 1 + 2)));
            }
        }
    }
    let e = match line_end(b, pos + 1) {
        Ok(e) => e,
        Err(x) => {
            proof {
                assert forall|f: RespFrame| frame_wf(f) && no_double_or_set(f) && #[trigger] cut_at(b@, pos as int, f) implies x
                    == DecodeError::Incomplete by {
                    lemma_bulk_cut(b@, pos as int, f);
                    if f is BulkString {
                        let d = decimal(f->BulkString_0.0@.len());
                        if b@.len() >= pos + 3 + d.len() {
                            assert(b@.subrange(pos + 1, pos + 1 + d.len()) == d);
                        }
                    }
                }
            }
            return Err(x);
        },
    };
    proof {
        assert forall|f: RespFrame| frame_wf(f) && no_double_or_set(f) && #[trigger] cut_at(b@, pos as int, f) implies
            f is BulkString && e == pos + 1 + decimal(f->BulkString_0.0@.len()).len() && b@.subrange(pos + 1, e as int) == decimal(f->BulkString_0.0@.len())
            && b@.len() < e + 2 + f->BulkString_0.0@.len() + 2 by {
            lemma_bulk_cut(b@, pos as int, f);
            if f is BulkString {
                let d = decimal(f->BulkString_0.0@.len());
                if b@.len() >= pos + 3 + d.len() {
                    assert(b@.subrange(pos + 1, pos + 1 + d.len()) == d);
                }
            }
        }
    }
    proof {
        assert forall|k: int| #[trigger] line_at(b@, pos + 1, k) implies k == e - pos - 1 by {
            assert(b@.subrange(pos + 1, pos + 1 + k) == b@.subrange(pos + 1, pos + 1 + k));
        }
    }
    if is_minus_one(b, pos + 1, e) {
        proof {
            assert(b@.subrange(pos as int, e + 2) =~= seq![b@[pos as int]] + b@.subrange(
                pos + 1,
                e as int,
            ) + seq![13u8, 10u8]);
            assert(b@.subrange(pos as int, e + 2) =~= frame_bytes(
                RespFrame::NullBulkString(RespNullBulkString),
            ));
            assert forall|f: RespFrame| frame_wf(f) && no_double_or_set(f) && #[trigger] cut_at(b@, pos as int, f) implies false by {
                let d = decimal(f->BulkString_0.0@.len());
                assert(b@.subrange(pos + 1, e as int)[0] == d[0]);
                lemma_bulk_cut(b@, pos as int, f);
            }
            assert forall|g: RespFrame| frame_wf(g) && #[trigger] holds_at(b@, pos as int, g) implies e
                + 2 == pos + frame_bytes(g).len() by {
                lemma_bulk_at(b@, pos as int, g);
                if g is NullBulkString {
                    assert(single_line(b@.subrange(pos + 1, pos + 1 + 2)));
                } else {
                    let d = decimal(g->BulkString_0.0@.len());
                    assert(b@.subrange(pos + 1, pos + 1 + d.len()) == d);
                    assert(b@.subrange(pos + 1, e as int)[0] == 45u8);
                    assert(e == pos + 1 + d.len());
                }
            }
        }
        proof {
            let t = b@.subrange(pos + 1, e as int);
            assert forall|n: nat| t != #[trigger] decimal(n) by {
                lemma_decimal_single_line(n);
                if t == decimal(n) {
                    assert(t[0] == 45u8);
                }
            }
            if malformed_bulk(b@, pos as int) {
                let k = choose|k: int| #![trigger b@.subrange(pos + 1, pos + 1 + k)] line_at(b@, pos + 1, k) && ({
                    let t = b@.subrange(pos + 1, pos + 1 + k);
                    ||| t != seq![45u8, 49u8] && forall|n: nat| t != #[trigger] decimal(n)
                    ||| exists|n: nat|
                        t == #[trigger] decimal(n) && pos + k + n + 5 <= b@.len() && !(b@[pos + k + n + 3]
                            == 13u8 && b@[pos + k + n + 4] == 10u8)
                });
                assert(k == e - pos - 1);
            }
        }
        return Ok((RespFrame::NullBulkString(RespNullBulkString), e + 2));
    }
    proof {
        if held && target is NullBulkString {
            assert(e == pos + 3);
        }
    }
    let n = match parse_decimal(b, pos + 1, e) {
        Some(n) => n,
        None => {
            proof {
                assert forall|f: RespFrame| frame_wf(f) && no_double_or_set(f) && #[trigger] cut_at(b@, pos as int, f) implies false by {
                    let l = f->BulkString_0.0@.len();
                    assert(f->BulkString_0.0.len() as int == l);
                    assert(b@.subrange(pos + 1, e as int) == decimal(l));
                }
            }
            return Err(DecodeError::Malformed);
        },
    };
    let start = e + 2;
    proof {
        assert forall|f: RespFrame| frame_wf(f) && no_double_or_set(f) && #[trigger] cut_at(b@, pos as int, f) implies
            f->BulkString_0.0@.len() == n by {
            lemma_decimal_injective(n as nat, f->BulkString_0.0@.len());
        }
        if held {
            let data = target->BulkString_0.0@;
            let d = decimal(data.len());
            assert(e == pos + 1 + d.len());
            assert(n == data.len());
        }
    }
    proof {
        if malformed_bulk(b@, pos as int) {
            let k = choose|k: int| #![trigger b@.subrange(pos + 1, pos + 1 + k)] line_at(b@, pos + 1, k) && ({
                let t = b@.subrange(pos + 1, pos + 1 + k);
                ||| t != seq![45u8, 49u8] && forall|n: nat| t != #[trigger] decimal(n)
                ||| exists|n: nat|
                    t == #[trigger] decimal(n) && pos + k + n + 5 <= b@.len() && !(b@[pos + k + n + 3]
                        == 13u8 && b@[pos + k + n + 4] == 10u8)
            });
            assert(k == e - pos - 1);
            let t = b@.subrange(pos + 1, pos + 1 + k);
            assert(t == decimal(n as nat));
            let m = choose|m: nat|
                t == #[trigger] decimal(m) && pos + k + m + 5 <= b@.len() && !(b@[pos + k + m + 3]
                    == 13u8 && b@[pos + k + m + 4] == 10u8);
            lemma_decimal_injective(m, n as nat);
        }
    }
    if n as u128 + 2 > (b.len() - start) as u128 {
        return Err(DecodeError::Incomplete);
    }
    proof {
        assert forall|f: RespFrame| frame_wf(f) && no_double_or_set(f) && #[trigger] cut_at(b@, pos as int, f) implies false by {
        }
    }
    let stop = start + n as usize;
    if b[stop] != 13u8 || b[stop + 1] != 10u8 {
        return Err(DecodeError::Malformed);
    }
    let data = copy_range(b, start, stop);
    proof {
        assert(b@.subrange(pos as int, stop + 2) =~= header(36u8, data@.len()) + data@ + crlf());
        assert forall|g: RespFrame| frame_wf(g) && #[trigger] holds_at(b@, pos as int, g) implies stop
            + 2 == pos + frame_bytes(g).len() by {
            lemma_bulk_at(b@, pos as int, g);
            if g is NullBulkString {
                assert(single_line(b@.subrange(pos + 1, pos + 1 + 2)));
            } else {
                let gd = g->BulkString_0.0@;
                let d = decimal(gd.len());
                assert(e == pos + 1 + d.len());
                lemma_decimal_injective(n as nat, gd.len());
            }
        }
    }
    Ok((RespFrame::BulkString(BulkString(data)), stop + 2))
}

/// The double that a rendered number text stands for, in canonical form: its digits before
/// any `e` (the point skipped) scaled by the exponent after it.
fn double_candidate(t: &Vec<u8>) -> (r: Option<FloatWrapper>)
    ensures
        r matches Some(w) ==> w.wf(),
{
    if t.len() == 0 || (t[0] != 43u8 && t[0] != 45u8) {
        return None;
    }
    if t.len() == 4 && t[1] == 105u8 && t[2] == 110u8 && t[3] == 102u8 {
        return Some(FloatWrapper::infinity(t[0] == 45u8));
    }
    if t.len() == 4 && t[0] == 43u8 && t[1] == 78u8 && t[2] == 97u8 && t[3] == 78u8 {
        return Some(FloatWrapper::nan());
    }
    let negative = t[0] == 45u8;
    let mut mantissa: u64 = 0;
    let mut frac: i64 = 0;
    let mut seen_point = false;
    let mut i: usize = 1;
    while i < t.len() && t[i] != 101u8
        invariant
            1 <= i <= t@.len(),
            0 <= frac <= 1000,
        decreases t@.len() - i,
    {
        let c = t[i];
        if c == 46u8 {
            if seen_point {
                return None;
            }
            seen_point = true;
        } else if c >= 48u8 && c <= 57u8 {
            let d: u64 = (c - 48u8) as u64;
            if mantissa > (0xffff_ffff_ffff_ffffu64 - d) / 10 {
                return None;
            }
            mantissa = mantissa * 10 + d;
            if seen_point {
                if frac >= 1000 {
                    return None;
                }
                frac = frac + 1;
            }
        } else {
            return None;
        }
        i = i + 1;
    }
    let mut exponent: i64 = 0;
    if i < t.len() {
        i = i + 1;
        let exp_negative = i < t.len() && t[i] == 45u8;
        if exp_negative {
            i = i + 1;
        }
        if i == t.len() {
            return None;
        }
        while i < t.len()
            invariant
                i <= t@.len(),
                0 <= exponent <= 1000,
            decreases t@.len() - i,
        {
            let c = t[i];
            if c < 48u8 || c > 57u8 {
                return None;
            }
            exponent = exponent * 10 + (c - 48u8) as i64;
            if exponent > 1000 {
                return None;
            }
            i = i + 1;
        }
        if exp_negative {
            exponent = -exponent;
        }
    }
    exponent = exponent - frac;
    if mantissa == 0 {
        exponent = 0;
    }
    while mantissa != 0 && mantissa % 10 == 0
        invariant
            -2000 <= exponent <= 1000,
        decreases mantissa,
    {
        mantissa = mantissa / 10;
        exponent = exponent + 1;
        if exponent > 1000 {
            return None;
        }
    }
    if exponent < -400 || exponent > 400 {
        return None;
    }
    FloatWrapper::new(negative, mantissa, exponent as i32)
}

/// Reads a double that starts at `pos`; the text must be exactly how the double renders.
fn decode_double(b: &[u8], pos: usize) -> (r: Result<(RespFrame, usize), DecodeError>)
    requires
        b@.len() < usize::MAX,
        pos < b@.len(),
        b@[pos as int] == 44u8,
    ensures
        r != Err::<(RespFrame, usize), DecodeError>(DecodeError::UnsupportedType),
        r matches Ok((f, end)) ==> pos < end <= b@.len() && b@.subrange(pos as int, end as int)
            == frame_bytes(f) && frame_wf(f),
{
    let e = match line_end(b, pos + 1) {
        Ok(e) => e,
        Err(x) => return Err(x),
    };
    let text = copy_range(b, pos + 1, e);
    let w = match double_candidate(&text) {
        Some(w) => w,
        None => return Err(DecodeError::Malformed),
    };
    let mut rendered: Vec<u8> = Vec::new();
    push_double(&mut rendered, &w);
    if compare_bytes(rendered.as_slice(), text.as_slice()) != 0 {
        return Err(DecodeError::Malformed);
    }
    proof {
        assert(rendered@ =~= double_text(w));
        assert(b@.subrange(pos as int, e + 2) =~= seq![44u8] + double_text(w) + crlf());
    }
    Ok((RespFrame::Double(w), e + 2))
}

/// Reads one frame from the start of `buf`, and returns it with the number of bytes it took.
/// On success those bytes are exactly the frame's wire form. Where `buf` starts with the wire
/// form of a well-formed frame that holds no double and no set, reading succeeds and takes exactly those
/// bytes, so decoding what encoding produced gives back a frame with the same wire form.
/// Where `buf` holds only a proper prefix of such a wire form, the answer is `Incomplete`, so a
/// caller that keeps the bytes and calls again once the rest has arrived gets the same frame as
/// if all had come at once.
pub fn decode(buf: &[u8]) -> (r: Result<(RespFrame, usize), DecodeError>)
    requires
        buf@.len() < usize::MAX,
    ensures
        r matches Ok((f, n)) ==> 0 < n <= buf@.len() && buf@.subrange(0, n as int) == frame_bytes(f)
            && frame_wf(f),
        buf@.len() == 0 ==> r == Err::<(RespFrame, usize), DecodeError>(DecodeError::Incomplete),
        buf@.len() > 0 && unsupported_tag(buf@[0]) ==> r == Err::<(RespFrame, usize), DecodeError>(
            DecodeError::UnsupportedType,
        ),
        buf@.len() > 0 && !known_tag(buf@[0]) && !unsupported_tag(buf@[0]) ==> r == Err::<
            (RespFrame, usize),
            DecodeError,
        >(DecodeError::Malformed),
        malformed_bulk(buf@, 0) || malformed_text(buf@, 0) || malformed_header(buf@, 0) ==> r == Err::<
            (RespFrame, usize),
            DecodeError,
        >(DecodeError::Malformed),
        forall|f: RespFrame|
            frame_wf(f) && no_double_or_set(f) && #[trigger] holds_at(buf@, 0, f) ==> (r matches Ok((g, n))
                && n == frame_bytes(f).len() && frame_bytes(g) == frame_bytes(f)),
        forall|f: RespFrame|
            frame_wf(f) && no_double_or_set(f) && buf@.len() < frame_bytes(f).len() && buf@
                == #[trigger] frame_bytes(f).subrange(0, buf@.len() as int) ==> r == Err::<
                (RespFrame, usize),
                DecodeError,
            >(DecodeError::Incomplete),
{
    proof {
        assert forall|f: RespFrame|
            frame_wf(f) && no_double_or_set(f) && buf@.len() < frame_bytes(f).len() && buf@
                == #[trigger] frame_bytes(f).subrange(0, buf@.len() as int) implies cut_at(buf@, 0, f) by {
            assert forall|j: int| 0 <= j < buf@.len() - 0 implies buf@[0 + j] == frame_bytes(f)[j] by {
                assert(buf@[j] == frame_bytes(f).subrange(0, buf@.len() as int)[j]);
            }
        }
    }
    decode_at(buf, 0)
}

/// A buffer that frames can be read from.
pub trait RespDecode: Sized {
    spec fn contents(&self) -> Seq<u8>;

    /// Reads one frame from the start of the buffer, with the number of bytes it took; as
    /// `decode` does on the buffer's contents.
    fn decode(buf: &Self) -> (r: Result<(RespFrame, usize), DecodeError>)
        requires
            buf.contents().len() < usize::MAX,
        ensures
            r matches Ok((f, n)) ==> 0 < n <= buf.contents().len() && buf.contents().subrange(
                0,
                n as int,
            ) == frame_bytes(f) && frame_wf(f),
            buf.contents().len() == 0 ==> r == Err::<(RespFrame, usize), DecodeError>(
                DecodeError::Incomplete,
            ),
            buf.contents().len() > 0 && unsupported_tag(buf.contents()[0]) ==> r == Err::<
                (RespFrame, usize),
                DecodeError,
            >(DecodeError::UnsupportedType),
            buf.contents().len() > 0 && !known_tag(buf.contents()[0]) && !unsupported_tag(
                buf.contents()[0],
            ) ==> r == Err::<(RespFrame, usize), DecodeError>(DecodeError::Malformed),
            forall|f: RespFrame|
                frame_wf(f) && no_double_or_set(f) && #[trigger] holds_at(buf.contents(), 0, f) ==> (
                r matches Ok((g, n)) && n == frame_bytes(f).len() && frame_bytes(g) == frame_bytes(
                    f,
                )),
            forall|f: RespFrame|
                frame_wf(f) && no_double_or_set(f) && buf.contents().len() < frame_bytes(f).len()
                    && buf.contents() == #[trigger] frame_bytes(f).subrange(
                    0,
                    buf.contents().len() as int,
                ) ==> r == Err::<(RespFrame, usize), DecodeError>(DecodeError::Incomplete),
    ;
}

impl RespDecode for Vec<u8> {
    open spec fn contents(&self) -> Seq<u8> {
        self@
    }

    fn decode(buf: &Vec<u8>) -> (r: Result<(RespFrame, usize), DecodeError>) {
        decode(buf.as_slice())
    }
}

/// Reads one frame that starts at `pos`, and returns it with the position just after it.
#[verifier::rlimit(40)]
pub fn decode_at(b: &[u8], pos: usize) -> (r: Result<(RespFrame, usize), DecodeError>)
    requires
        b@.len() < usize::MAX,
        pos <= b@.len(),
    ensures
        malformed_bulk(b@, pos as int) || malformed_text(b@, pos as int) || malformed_header(
            b@,
            pos as int,
        ) ==> r == Err::<
            (RespFrame, usize),
            DecodeError,
        >(DecodeError::Malformed),
        r matches Ok((f, end)) ==> pos < end <= b@.len() && b@.subrange(pos as int, end as int)
            == frame_bytes(f) && frame_wf(f),
        pos < b@.len() && !known_tag(b@[pos as int]) && !unsupported_tag(b@[pos as int]) ==> r
            == Err::<(RespFrame, usize), DecodeError>(DecodeError::Malformed),
        pos < b@.len() && unsupported_tag(b@[pos as int]) ==> r == Err::<(RespFrame, usize), DecodeError>(
            DecodeError::UnsupportedType,
        ),
        pos == b@.len() ==> r == Err::<(RespFrame, usize), DecodeError>(DecodeError::Incomplete),
        forall|f: RespFrame|
            frame_wf(f) && no_double_or_set(f) && #[trigger] holds_at(b@, pos as int, f) ==> succeeds_to(
                r,
                pos + frame_bytes(f).len(),
            ),
        forall|f: RespFrame|
            frame_wf(f) && no_double_or_set(f) && #[trigger] cut_at(b@, pos as int, f) ==> r == Err::<
                (RespFrame, usize),
                DecodeError,
            >(DecodeError::Incomplete),
    decreases b@.len() - pos, 1nat,
{
    proof {
        assert forall|f: RespFrame| frame_wf(f) && no_double_or_set(f) && #[trigger] holds_at(b@, pos as int, f) implies
            pos < b@.len() && b@[pos as int] == tag_of(f) by {
            lemma_tag(b@, pos as int, f);
        }
        assert forall|f: RespFrame| frame_wf(f) && no_double_or_set(f) && #[trigger] cut_at(b@, pos as int, f) implies
            pos < b@.len() ==> b@[pos as int] == tag_of(f) by {
            lemma_first_byte(f);
            if pos < b@.len() {
                assert(b@[pos + 0] == frame_bytes(f)[0]);
            }
        }
    }
    if pos >= b.len() {
        return Err(DecodeError::Incomplete);
    }
    let tag = b[pos];
    if tag == 43u8 || tag == 45u8 {
        decode_text(b, pos)
    } else if tag == 58u8 {
        decode_integer(b, pos)
    } else if tag == 95u8 || tag == 35u8 {
        decode_marker(b, pos)
    } else if tag == 36u8 {
        decode_bulk(b, pos)
    } else if tag == 42u8 || tag == 126u8 {
        decode_sequence(b, pos)
    } else if tag == 37u8 {
        decode_map(b, pos)
    } else if tag == 44u8 {
        decode_double(b, pos)
    } else if tag == 33u8 || tag == 61u8 || tag == 40u8 || tag == 62u8 || tag == 124u8 {
        Err(DecodeError::UnsupportedType)
    } else {
        Err(DecodeError::Malformed)
    }
}

/// Reads an array, a legacy null array, or a set that starts at `pos`.
#[verifier::rlimit(80)]
fn decode_sequence(b: &[u8], pos: usize) -> (r: Result<(RespFrame, usize), DecodeError>)
    requires
        b@.len() < usize::MAX,
        pos < b@.len(),
        b@[pos as int] == 42u8 || b@[pos as int] == 126u8,
    ensures
        malformed_header(b@, pos as int) ==> r == Err::<(RespFrame, usize), DecodeError>(
            DecodeError::Malformed,
        ),
        r matches Ok((f, end)) ==> pos < end <= b@.len() && b@.subrange(pos as int, end as int)
            == frame_bytes(f) && frame_wf(f),
        forall|f: RespFrame|
            frame_wf(f) && no_double_or_set(f) && #[trigger] holds_at(b@, pos as int, f) ==> succeeds_to(
                r,
                pos + frame_bytes(f).len(),
            ),
        forall|f: RespFrame|
            frame_wf(f) && no_double_or_set(f) && #[trigger] cut_at(b@, pos as int, f) ==> r == Err::<
                (RespFrame, usize),
                DecodeError,
            >(DecodeError::Incomplete),
    decreases b@.len() - pos, 0nat,
{
    let tag = b[pos];
    let ghost held = exists|f: RespFrame| frame_wf(f) && no_double_or_set(f) && #[trigger] holds_at(b@, pos as int, f);
    let ghost target = choose|f: RespFrame| frame_wf(f) && no_double_or_set(f) && #[trigger] holds_at(b@, pos as int, f);
    proof {
        if held {
            lemma_sequence_at(b@, pos as int, target);
            if target is NullArray {
                assert(single_line(b@.subrange(pos + 1, pos + 1 + 2)));
            }
        }
    }
    let e = match line_end(b, pos + 1) {
        Ok(e) => e,
        Err(x) => {
            proof {
                assert forall|g: RespFrame| frame_wf(g) && no_double_or_set(g) && #[trigger] cut_at(b@, pos as int, g) implies x == DecodeError::Incomplete by {
                    lemma_sequence_cut(b@, pos as int, g);
                    if !(g is NullArray) {
                        let d = decimal(members(g).len());
                        if b@.len() >= pos + 3 + d.len() {
                            assert(b@.subrange(pos + 1, pos + 1 + d.len()) == d);
                        }
                    }
                }
            }
            proof {
                assert forall|k: int| !#[trigger] line_at(b@, pos + 1, k) by {
                    assert(b@.subrange(pos + 1, pos + 1 + k) == b@.subrange(pos + 1, pos + 1 + k));
                }
                lemma_header_missing(b@, pos as int);
            }
            return Err(x);
        },
    };
    proof {
        assert forall|k: int| #[trigger] line_at(b@, pos + 1, k) implies k == e - pos - 1 by {
            assert(b@.subrange(pos + 1, pos + 1 + k) == b@.subrange(pos + 1, pos + 1 + k));
        }
    }
    proof {
        assert forall|g: RespFrame| frame_wf(g) && no_double_or_set(g) && #[trigger] cut_at(b@, pos as int, g) implies !(g is NullArray) && e == pos + 1 + decimal(members(g).len()).len()
            && b@.subrange(pos + 1, e as int) == decimal(members(g).len()) && cut_by(b@, e + 2, frames_bytes(members(g)))
            && (tag == 126u8 <==> g is RespSet) by {
            lemma_sequence_cut(b@, pos as int, g);
            if !(g is NullArray) {
                let d = decimal(members(g).len());
                if b@.len() >= pos + 3 + d.len() {
                    assert(b@.subrange(pos + 1, pos + 1 + d.len()) == d);
                }
            }
        }
    }
    if tag == 42u8 && is_minus_one(b, pos + 1, e) {
        proof {
            assert(b@.subrange(pos as int, e + 2) =~= seq![b@[pos as int]] + b@.subrange(
                pos + 1,
                e as int,
            ) + seq![13u8, 10u8]);
            assert(b@.subrange(pos as int, e + 2) =~= frame_bytes(RespFrame::NullArray(RespNullArray)));
            assert forall|g: RespFrame| frame_wf(g) && no_double_or_set(g) && #[trigger] cut_at(b@, pos as int, g) implies false by {
                let d = decimal(members(g).len());
                assert(b@.subrange(pos + 1, e as int)[0] == d[0]);
                lemma_sequence_cut(b@, pos as int, g);
            }
            assert forall|g: RespFrame| frame_wf(g) && no_double_or_set(g) && #[trigger] holds_at(b@, pos as int, g) implies e
                + 2 == pos + frame_bytes(g).len() by {
                lemma_sequence_at(b@, pos as int, g);
                if g is NullArray {
                    assert(single_line(b@.subrange(pos + 1, pos + 1 + 2)));
                } else {
                    let d = decimal(members(g).len());
                    assert(b@.subrange(pos + 1, e as int)[0] == 45u8);
                    assert(e == pos + 1 + d.len());
                }
            }
        }
        proof {
            lemma_header_read(b@, pos as int, e as int);
        }
        return Ok((RespFrame::NullArray(RespNullArray), e + 2));
    }
    proof {
        assert forall|g: RespFrame| frame_wf(g) && no_double_or_set(g) && #[trigger] holds_at(b@, pos as int, g) implies
            !(g is NullArray) && e == pos + 1 + decimal(members(g).len()).len() by {
            lemma_sequence_at(b@, pos as int, g);
            if g is NullArray {
                assert(single_line(b@.subrange(pos + 1, pos + 1 + 2)));
                assert(b@.subrange(pos + 1, pos + 3) == seq![45u8, 49u8]);
            } else {
                let d = decimal(members(g).len());
                assert(b@.subrange(pos + 1, pos + 1 + d.len()) == d);
            }
        }
    }
    proof {
        assert forall|g: RespFrame| frame_wf(g) && no_double_or_set(g) && #[trigger] holds_at(b@, pos as int, g) implies
            members(g).len() <= 0xffff_ffff_ffff_ffff by {
            lemma_sequence_at(b@, pos as int, g);
            lemma_frames_len(members(g));
        }
    }
    let n = match parse_decimal(b, pos + 1, e) {
        Some(n) => n,
        None => {
            proof {
                if held {
                    lemma_sequence_at(b@, pos as int, target);
                    assert(b@.subrange(pos + 1, e as int) == decimal(members(target).len()));
                }
                assert forall|g: RespFrame| frame_wf(g) && no_double_or_set(g) && #[trigger] cut_at(b@, pos as int, g) implies false by {
                    lemma_members_bound(g);
                    assert(b@.subrange(pos + 1, e as int) == decimal(members(g).len()));
                }
            }
            return Err(DecodeError::Malformed);
        },
    };
    proof {
        assert(b@.subrange(pos + 1, e as int) == decimal(n as nat));
        lemma_header_read(b@, pos as int, e as int);
    }
    let start = e + 2;
    proof {
        assert forall|g: RespFrame| frame_wf(g) && no_double_or_set(g) && #[trigger] holds_at(b@, pos as int, g) implies {
            &&& members(g).len() == n
            &&& start == start + frames_bytes(members(g).subrange(0, 0)).len()
            &&& frame_bytes(g).len() == start - pos + frames_bytes(members(g)).len()
            &&& b@.subrange(start as int, start + frames_bytes(members(g)).len()) == frames_bytes(members(g))
            &&& (tag == 126u8 <==> g is RespSet)
        } by {
            lemma_sequence_at(b@, pos as int, g);
            lemma_decimal_injective(n as nat, members(g).len());
            assert(members(g).subrange(0, 0) =~= Seq::<RespFrame>::empty());
        }
        assert(b@.subrange(pos as int, start as int) =~= header(tag, n as nat));
        assert forall|g: RespFrame| frame_wf(g) && no_double_or_set(g) && #[trigger] cut_at(b@, pos as int, g) implies members(g).len() == n && start == start
            + frames_bytes(members(g).subrange(0, 0)).len() by {
            lemma_decimal_injective(n as nat, members(g).len());
            assert(members(g).subrange(0, 0) =~= Seq::<RespFrame>::empty());
        }
    }
    let mut cur: usize = start;
    let mut v: Vec<RespFrame> = Vec::new();
    let mut last: Vec<u8> = Vec::new();
    let mut last_key: Vec<u8> = Vec::new();
    let mut i: u64 = 0;
    while i < n
        invariant
            !malformed_header(b@, pos as int),
            b@.len() < usize::MAX,
            pos < start <= cur <= b@.len(),
            start == e + 2,
            tag == b@[pos as int],
            tag == 42u8 || tag == 126u8,
            i <= n,
            v@.len() == i,
            b@.subrange(start as int, cur as int) == frames_bytes(v@),
            frames_wf(v@),
            tag == 126u8 ==> frames_sorted(v@),
            tag == 126u8 && i > 0 ==> last@ == frame_bytes(v@.last()) && last_key@ == order_key(
                v@.last(),
            ),
            forall|g: RespFrame| frame_wf(g) && no_double_or_set(g) && #[trigger] holds_at(b@, pos as int, g) ==> {
                &&& !(g is NullArray)
                &&& members(g).len() == n
                &&& cur == start + frames_bytes(members(g).subrange(0, i as int)).len()
                &&& b@.subrange(start as int, start + frames_bytes(members(g)).len()) == frames_bytes(members(g))
                &&& frame_bytes(g).len() == start - pos + frames_bytes(members(g)).len()
                &&& (tag == 126u8 <==> g is RespSet)
                &&& (tag == 126u8 && i > 0 ==> last@ == frame_bytes(members(g)[i - 1]))
            },
            forall|g: RespFrame| frame_wf(g) && no_double_or_set(g) && #[trigger] cut_at(b@, pos as int, g) ==> {
                &&& members(g).len() == n
                &&& cur == start + frames_bytes(members(g).subrange(0, i as int)).len()
                &&& cut_by(b@, start as int, frames_bytes(members(g)))
                &&& (tag == 126u8 <==> g is RespSet)
                &&& (tag == 126u8 && i > 0 ==> last@ == frame_bytes(members(g)[i - 1]))
            },
        decreases n - i,
    {
        proof {
            assert forall|g: RespFrame| frame_wf(g) && no_double_or_set(g) && #[trigger] holds_at(b@, pos as int, g) implies ({
                let x = members(g)[i as int];
                &&& holds_at(b@, cur as int, x)
                &&& frame_wf(x)
                &&& no_double_or_set(x)
                &&& frames_bytes(members(g).subrange(0, i + 1)).len() == cur - start + frame_bytes(x).len()
            }) by {
                lemma_sequence_at(b@, pos as int, g);
                lemma_member_at(b@, start as int, members(g), i as int);
                lemma_frames_wf_index(members(g), i as int);
                lemma_all_no_double_or_set_index(members(g), i as int);
            }
            assert forall|g: RespFrame| frame_wf(g) && no_double_or_set(g) && #[trigger] cut_at(b@, pos as int, g) implies ({
                let x = members(g)[i as int];
                let c = cur as int;
                &&& (b@.len() < c + frame_bytes(x).len() ==> cut_at(b@, c, x))
                &&& (b@.len() >= c + frame_bytes(x).len() ==> holds_at(b@, c, x))
                &&& frame_wf(x)
                &&& no_double_or_set(x)
                &&& frames_bytes(members(g).subrange(0, i + 1)).len() == cur - start + frame_bytes(x).len()
            }) by {
                lemma_member_cut(b@, start as int, members(g), i as int);
                lemma_frames_wf_index(members(g), i as int);
                lemma_all_no_double_or_set_index(members(g), i as int);
            }
        }
        let (f, end) = match decode_at(b, cur) {
            Ok(x) => x,
            Err(x) => {
                proof {
                    assert forall|g: RespFrame| frame_wf(g) && no_double_or_set(g) && #[trigger] cut_at(b@, pos as int, g) implies x == DecodeError::Incomplete by {
                        let y = members(g)[i as int];
                        if b@.len() >= cur + frame_bytes(y).len() {
                            assert(holds_at(b@, cur as int, y));
                        } else {
                            assert(cut_at(b@, cur as int, y));
                        }
                    }
                }
                return Err(x);
            },
        };
        proof {
            assert forall|g: RespFrame| frame_wf(g) && no_double_or_set(g) && #[trigger] cut_at(b@, pos as int, g) implies end == cur + frame_bytes(members(g)[i as int]).len()
                && holds_at(b@, cur as int, members(g)[i as int]) by {
                let y = members(g)[i as int];
                if b@.len() < cur + frame_bytes(y).len() {
                    assert(cut_at(b@, cur as int, y));
                }
            }
        }
        if tag == 126u8 {
            let mut enc: Vec<u8> = Vec::new();
            encode_into(&f, &mut enc);
            let mut key: Vec<u8> = Vec::new();
            push_order_key(&f, &mut key);
            if i > 0 {
                let mut c = compare_bytes(last_key.as_slice(), key.as_slice());
                if c == 0 {
                    c = compare_bytes(last.as_slice(), enc.as_slice());
                }
                if c != -1 {
                    return Err(DecodeError::Malformed);
                }
            }
            proof {
                let s = v@.push(f);
                assert(key@ =~= order_key(f));
                assert(enc@ =~= frame_bytes(f));
                assert forall|a: int, c: int| 0 <= a < c < s.len() implies rank_lt(
                    rank(#[trigger] s[a]),
                    rank(#[trigger] s[c]),
                ) by {
                    if c == s.len() - 1 && a < c - 1 {
                        lemma_rank_lt_transitive(rank(s[a]), rank(s[c - 1]), rank(f));
                    }
                }
            }
            last = enc;
            last_key = key;
        }
        let ghost old_v = v@;
        v.push(f);
        proof {
            assert(v@.drop_last() =~= old_v);
            assert(b@.subrange(start as int, end as int) =~= b@.subrange(start as int, cur as int)
                + b@.subrange(cur as int, end as int));
            assert forall|g: RespFrame| frame_wf(g) && no_double_or_set(g) && #[trigger] holds_at(b@, pos as int, g) implies
                tag == 126u8 ==> last@ == frame_bytes(members(g)[i as int]) by {
                let x = members(g)[i as int];
                assert(holds_at(b@, cur as int, x));
            }
            assert forall|g: RespFrame| frame_wf(g) && no_double_or_set(g) && #[trigger] cut_at(b@, pos as int, g) implies
                tag == 126u8 ==> last@ == frame_bytes(members(g)[i as int]) by {
                let x = members(g)[i as int];
                assert(holds_at(b@, cur as int, x));
            }
        }
        cur = end;
        i = i + 1;
    }
    proof {
        assert(b@.subrange(pos as int, cur as int) =~= b@.subrange(pos as int, start as int)
            + b@.subrange(start as int, cur as int));
        assert forall|g: RespFrame| frame_wf(g) && no_double_or_set(g) && #[trigger] holds_at(b@, pos as int, g) implies
            cur == pos + frame_bytes(g).len() by {
            assert(members(g).subrange(0, n as int) =~= members(g));
        }
        assert forall|g: RespFrame| frame_wf(g) && no_double_or_set(g) && #[trigger] cut_at(b@, pos as int, g) implies false by {
            assert(members(g).subrange(0, n as int) =~= members(g));
        }
    }
    if tag == 42u8 {
        Ok((RespFrame::Array(RespArray(v)), cur))
    } else {
        Ok((RespFrame::RespSet(RespSet(v)), cur))
    }
}

/// Reads a map that starts at `pos`: each key a simple string, keys in increasing order.
#[verifier::rlimit(80)]
fn decode_map(b: &[u8], pos: usize) -> (r: Result<(RespFrame, usize), DecodeError>)
    requires
        b@.len() < usize::MAX,
        pos < b@.len(),
        b@[pos as int] == 37u8,
    ensures
        malformed_header(b@, pos as int) ==> r == Err::<(RespFrame, usize), DecodeError>(
            DecodeError::Malformed,
        ),
        r matches Ok((f, end)) ==> pos < end <= b@.len() && b@.subrange(pos as int, end as int)
            == frame_bytes(f) && frame_wf(f),
        forall|f: RespFrame|
            frame_wf(f) && no_double_or_set(f) && #[trigger] holds_at(b@, pos as int, f) ==> succeeds_to(
                r,
                pos + frame_bytes(f).len(),
            ),
        forall|f: RespFrame|
            frame_wf(f) && no_double_or_set(f) && #[trigger] cut_at(b@, pos as int, f) ==> r == Err::<
                (RespFrame, usize),
                DecodeError,
            >(DecodeError::Incomplete),
    decreases b@.len() - pos, 0nat,
{
    let ghost held = exists|f: RespFrame| frame_wf(f) && no_double_or_set(f) && #[trigger] holds_at(b@, pos as int, f);
    let ghost target = choose|f: RespFrame| frame_wf(f) && no_double_or_set(f) && #[trigger] holds_at(b@, pos as int, f);
    proof {
        if held {
            lemma_map_at(b@, pos as int, target);
        }
    }
    let e = match line_end(b, pos + 1) {
        Ok(e) => e,
        Err(x) => {
            proof {
                assert forall|g: RespFrame| frame_wf(g) && no_double_or_set(g) && #[trigger] cut_at(b@, pos as int, g) implies x == DecodeError::Incomplete by {
                    lemma_map_cut(b@, pos as int, g);
                    let d = decimal(entries(g).len());
                    if b@.len() >= pos + 3 + d.len() {
                        assert(b@.subrange(pos + 1, pos + 1 + d.len()) == d);
                    }
                }
            }
            proof {
                assert forall|k: int| !#[trigger] line_at(b@, pos + 1, k) by {
                    assert(b@.subrange(pos + 1, pos + 1 + k) == b@.subrange(pos + 1, pos + 1 + k));
                }
                lemma_header_missing(b@, pos as int);
            }
            return Err(x);
        },
    };
    proof {
        assert forall|k: int| #[trigger] line_at(b@, pos + 1, k) implies k == e - pos - 1 by {
            assert(b@.subrange(pos + 1, pos + 1 + k) == b@.subrange(pos + 1, pos + 1 + k));
        }
    }
    proof {
        assert forall|g: RespFrame| frame_wf(g) && no_double_or_set(g) && #[trigger] cut_at(b@, pos as int, g) implies e == pos + 1 + decimal(entries(g).len()).len()
            && b@.subrange(pos + 1, e as int) == decimal(entries(g).len()) && cut_by(b@, e + 2, entries_bytes(entries(g))) by {
            lemma_map_cut(b@, pos as int, g);
            let d = decimal(entries(g).len());
            if b@.len() >= pos + 3 + d.len() {
                assert(b@.subrange(pos + 1, pos + 1 + d.len()) == d);
            }
        }
    }
    proof {
        assert forall|g: RespFrame| frame_wf(g) && no_double_or_set(g) && #[trigger] holds_at(b@, pos as int, g) implies
            entries(g).len() <= 0xffff_ffff_ffff_ffff && e == pos + 1 + decimal(entries(g).len()).len() by {
            lemma_map_at(b@, pos as int, g);
            lemma_entries_len(entries(g));
        }
    }
    let n = match parse_decimal(b, pos + 1, e) {
        Some(n) => n,
        None => {
            proof {
                if held {
                    lemma_map_at(b@, pos as int, target);
                    assert(b@.subrange(pos + 1, e as int) == decimal(entries(target).len()));
                }
                assert forall|g: RespFrame| frame_wf(g) && no_double_or_set(g) && #[trigger] cut_at(b@, pos as int, g) implies false by {
                    lemma_members_bound(g);
                    assert(b@.subrange(pos + 1, e as int) == decimal(entries(g).len()));
                }
            }
            return Err(DecodeError::Malformed);
        },
    };
    proof {
        assert(b@.subrange(pos + 1, e as int) == decimal(n as nat));
        lemma_header_read(b@, pos as int, e as int);
    }
    let start = e + 2;
    proof {
        assert forall|g: RespFrame| frame_wf(g) && no_double_or_set(g) && #[trigger] holds_at(b@, pos as int, g) implies {
            &&& entries(g).len() == n
            &&& start == start + entries_bytes(entries(g).subrange(0, 0)).len()
            &&& frame_bytes(g).len() == start - pos + entries_bytes(entries(g)).len()
            &&& b@.subrange(start as int, start + entries_bytes(entries(g)).len()) == entries_bytes(entries(g))
        } by {
            lemma_map_at(b@, pos as int, g);
            lemma_decimal_injective(n as nat, entries(g).len());
            assert(entries(g).subrange(0, 0) =~= Seq::<(String, RespFrame)>::empty());
        }
        assert(b@.subrange(pos as int, start as int) =~= header(37u8, n as nat));
        assert forall|g: RespFrame| frame_wf(g) && no_double_or_set(g) && #[trigger] cut_at(b@, pos as int, g) implies entries(g).len() == n && start == start
            + entries_bytes(entries(g).subrange(0, 0)).len() by {
            lemma_decimal_injective(n as nat, entries(g).len());
            assert(entries(g).subrange(0, 0) =~= Seq::<(String, RespFrame)>::empty());
        }
    }
    let mut cur: usize = start;
    let mut v: Vec<(String, RespFrame)> = Vec::new();
    let mut i: u64 = 0;
    while i < n
        invariant
            !malformed_header(b@, pos as int),
            b@.len() < usize::MAX,
            pos < start <= cur <= b@.len(),
            start == e + 2,
            b@[pos as int] == 37u8,
            i <= n,
            v@.len() == i,
            b@.subrange(start as int, cur as int) == entries_bytes(v@),
            entries_wf(v@),
            keys_sorted(v@),
            forall|g: RespFrame| frame_wf(g) && no_double_or_set(g) && #[trigger] holds_at(b@, pos as int, g) ==> {
                &&& entries(g).len() == n
                &&& cur == start + entries_bytes(entries(g).subrange(0, i as int)).len()
                &&& b@.subrange(start as int, start + entries_bytes(entries(g)).len()) == entries_bytes(entries(g))
                &&& frame_bytes(g).len() == start - pos + entries_bytes(entries(g)).len()
                &&& (i > 0 ==> text_bytes(v@.last().0) == text_bytes(entries(g)[i - 1].0))
            },
            forall|g: RespFrame| frame_wf(g) && no_double_or_set(g) && #[trigger] cut_at(b@, pos as int, g) ==> {
                &&& entries(g).len() == n
                &&& cur == start + entries_bytes(entries(g).subrange(0, i as int)).len()
                &&& cut_by(b@, start as int, entries_bytes(entries(g)))
                &&& (i > 0 ==> text_bytes(v@.last().0) == text_bytes(entries(g)[i - 1].0))
            },
        decreases n - i,
    {
        proof {
            assert forall|g: RespFrame| frame_wf(g) && no_double_or_set(g) && #[trigger] holds_at(b@, pos as int, g) implies ({
                let x = entries(g)[i as int];
                let k = RespFrame::SimpleString(SimpleString(x.0));
                &&& holds_at(b@, cur as int, k)
                &&& frame_wf(k)
                &&& holds_at(b@, cur + simple_line(43u8, x.0).len(), x.1)
                &&& frame_wf(x.1)
                &&& no_double_or_set(x.1)
                &&& cur < b@.len() && b@[cur as int] == 43u8
                &&& entries_bytes(entries(g).subrange(0, i + 1)).len() == cur - start + simple_line(43u8, x.0).len() + frame_bytes(x.1).len()
                &&& (i > 0 ==> bytes_lt(text_bytes(entries(g)[i - 1].0), text_bytes(x.0)))
            }) by {
                let x = entries(g)[i as int];
                lemma_map_at(b@, pos as int, g);
                lemma_entry_at(b@, start as int, entries(g), i as int);
                lemma_entries_wf_index(entries(g), i as int);
                lemma_entries_no_double_or_set_index(entries(g), i as int);
                lemma_tag(b@, cur as int, RespFrame::SimpleString(SimpleString(x.0)));
            }
            assert forall|g: RespFrame| frame_wf(g) && no_double_or_set(g) && #[trigger] cut_at(b@, pos as int, g) implies ({
                let x = entries(g)[i as int];
                let k = RespFrame::SimpleString(SimpleString(x.0));
                let c = cur as int;
                let kl = simple_line(43u8, x.0).len();
                let vl = frame_bytes(x.1).len();
                &&& (c < b@.len() ==> b@[c] == 43u8)
                &&& (b@.len() < c + kl ==> cut_at(b@, c, k))
                &&& (b@.len() >= c + kl ==> holds_at(b@, c, k))
                &&& (b@.len() >= c + kl && b@.len() < c + kl + vl ==> cut_at(b@, c + kl, x.1))
                &&& (b@.len() >= c + kl + vl ==> holds_at(b@, c + kl, x.1))
                &&& frame_wf(k) && no_double_or_set(k)
                &&& frame_wf(x.1) && no_double_or_set(x.1)
                &&& entries_bytes(entries(g).subrange(0, i + 1)).len() == cur - start + kl + vl
                &&& (i > 0 ==> bytes_lt(text_bytes(entries(g)[i - 1].0), text_bytes(x.0)))
            }) by {
                lemma_entry_cut(b@, start as int, entries(g), i as int);
                lemma_entries_wf_index(entries(g), i as int);
                lemma_entries_no_double_or_set_index(entries(g), i as int);
            }
        }
        if cur >= b.len() {
            return Err(DecodeError::Incomplete);
        }
        if b[cur] != 43u8 {
            return Err(DecodeError::Malformed);
        }
        let (kf, kend) = match decode_text(b, cur) {
            Ok(x) => x,
            Err(x) => {
                proof {
                    assert forall|g: RespFrame| frame_wf(g) && no_double_or_set(g) && #[trigger] cut_at(b@, pos as int, g) implies x == DecodeError::Incomplete by {
                        let y = RespFrame::SimpleString(SimpleString(entries(g)[i as int].0));
                        if b@.len() >= cur + frame_bytes(y).len() {
                            assert(holds_at(b@, cur as int, y));
                        } else {
                            assert(cut_at(b@, cur as int, y));
                        }
                    }
                }
                return Err(x);
            },
        };
        proof {
            assert forall|g: RespFrame| frame_wf(g) && no_double_or_set(g) && #[trigger] cut_at(b@, pos as int, g) implies holds_at(b@, cur as int, RespFrame::SimpleString(SimpleString(entries(g)[i as int].0))) by {
                let y = RespFrame::SimpleString(SimpleString(entries(g)[i as int].0));
                if b@.len() < cur + frame_bytes(y).len() {
                    assert(cut_at(b@, cur as int, y));
                }
            }
        }
        let key = match kf {
            RespFrame::SimpleString(s) => s.0,
            _ => return Err(DecodeError::Malformed),
        };
        proof {
            assert(frame_bytes(kf) == simple_line(43u8, key));
            assert forall|g: RespFrame| frame_wf(g) && no_double_or_set(g) && #[trigger] holds_at(b@, pos as int, g) implies
                text_bytes(key) == text_bytes(entries(g)[i as int].0) && kend == cur + simple_line(43u8, entries(g)[i as int].0).len() by {
                let x = entries(g)[i as int];
                assert(holds_at(b@, cur as int, RespFrame::SimpleString(SimpleString(x.0))));
                lemma_simple_line_text(43u8, key, x.0);
            }
            assert forall|g: RespFrame| frame_wf(g) && no_double_or_set(g) && #[trigger] cut_at(b@, pos as int, g) implies
                text_bytes(key) == text_bytes(entries(g)[i as int].0) && kend == cur + simple_line(43u8, entries(g)[i as int].0).len() by {
                let x = entries(g)[i as int];
                assert(holds_at(b@, cur as int, RespFrame::SimpleString(SimpleString(x.0))));
                lemma_simple_line_text(43u8, key, x.0);
            }
        }
        let (f, end) = match decode_at(b, kend) {
            Ok(x) => x,
            Err(x) => {
                proof {
                    assert forall|g: RespFrame| frame_wf(g) && no_double_or_set(g) && #[trigger] cut_at(b@, pos as int, g) implies x == DecodeError::Incomplete by {
                        let y = entries(g)[i as int].1;
                        if b@.len() >= kend + frame_bytes(y).len() {
                            assert(holds_at(b@, kend as int, y));
                        } else {
                            assert(cut_at(b@, kend as int, y));
                        }
                    }
                }
                return Err(x);
            },
        };
        proof {
            assert forall|g: RespFrame| frame_wf(g) && no_double_or_set(g) && #[trigger] cut_at(b@, pos as int, g) implies end == kend + frame_bytes(entries(g)[i as int].1).len() by {
                let y = entries(g)[i as int].1;
                if b@.len() < kend + frame_bytes(y).len() {
                    assert(cut_at(b@, kend as int, y));
                } else {
                    assert(holds_at(b@, kend as int, y));
                }
            }
        }
        if i > 0 && compare_bytes(v[v.len() - 1].0.as_str().as_bytes(), key.as_str().as_bytes())
            != -1 {
            return Err(DecodeError::Malformed);
        }
        let ghost old_v = v@;
        proof {
            let s = old_v.push((key, f));
            assert forall|a: int, c: int| 0 <= a < c < s.len() implies bytes_lt(
                text_bytes(#[trigger] s[a].0),
                text_bytes(#[trigger] s[c].0),
            ) by {
                if c == s.len() - 1 && a < c - 1 {
                    lemma_bytes_lt_transitive(text_bytes(s[a].0), text_bytes(s[c - 1].0), text_bytes(key));
                }
            }
        }
        v.push((key, f));
        proof {
            assert(v@.drop_last() =~= old_v);
            assert(b@.subrange(start as int, end as int) =~= b@.subrange(start as int, cur as int)
                + b@.subrange(cur as int, kend as int) + b@.subrange(kend as int, end as int));
        }
        cur = end;
        i = i + 1;
    }
    proof {
        assert(b@.subrange(pos as int, cur as int) =~= b@.subrange(pos as int, start as int)
            + b@.subrange(start as int, cur as int));
        assert forall|g: RespFrame| frame_wf(g) && no_double_or_set(g) && #[trigger] holds_at(b@, pos as int, g) implies
            cur == pos + frame_bytes(g).len() by {
            assert(entries(g).subrange(0, n as int) =~= entries(g));
        }
        assert forall|g: RespFrame| frame_wf(g) && no_double_or_set(g) && #[trigger] cut_at(b@, pos as int, g) implies false by {
            assert(entries(g).subrange(0, n as int) =~= entries(g));
        }
    }
    Ok((RespFrame::RespMap(RespMap(v)), cur))
}

} // verus!
