use vstd::prelude::*;
use crate::encode::{push_all, frame_bytes, frame_wf, frames_wf, entries_wf, lemma_frames_wf_index, lemma_entries_wf_index};
use crate::frame::{text_bytes, FloatWrapper, RespFrame};
use crate::number::{decimal, lemma_u64_decimal_len, push_decimal};
use crate::order::{bytes_lt, lemma_bytes_lt_irreflexive, lemma_bytes_lt_transitive};

verus! {

/// `n` as `k` bytes, most significant first.
pub open spec fn big_endian(n: nat, k: nat) -> Seq<u8>
    decreases k,
{
    if k == 0 {
        Seq::empty()
    } else {
        big_endian(n / 256, (k - 1) as nat).push((n % 256) as u8)
    }
}

/// Each byte of `x` behind a 1, then a closing 0: a form that keeps the order of `x` and
/// ends before anything that follows it can matter.
pub open spec fn escaped(x: Seq<u8>) -> Seq<u8> {
    Seq::new(2 * x.len(), |i: int| if i % 2 == 0 { 1u8 } else { x[i / 2] }).push(0u8)
}

/// Where the magnitude of a double stands: zero, then finite values by decimal exponent of
/// the leading digit and then by digits, then infinity, then NaN. With the sign byte before
/// it this is the order of the doubles' bit patterns.
pub open spec fn magnitude_key(w: FloatWrapper) -> Seq<u8> {
    if w.nan {
        seq![3u8]
    } else if w.infinite {
        seq![2u8]
    } else if w.mantissa == 0 {
        seq![0u8]
    } else {
        let d = decimal(w.mantissa as nat);
        seq![1u8] + big_endian((w.exponent + d.len() - 1 + 0x8000_0000) as nat, 4) + d
    }
}

/// A frame's place in the frame order, as bytes compared lexicographically: the kind first
/// (in the order the variants are declared), then the payload. Integers compare by value,
/// text and byte payloads lexicographically, doubles as their bit patterns order them, and
/// arrays, maps and sets member by member.
pub open spec fn order_key(f: RespFrame) -> Seq<u8>
    decreases f,
{
    match f {
        RespFrame::SimpleString(s) => seq![0u8] + text_bytes(s.0),
        RespFrame::Error(e) => seq![1u8] + text_bytes(e.0),
        RespFrame::Integer(i) => seq![2u8] + big_endian((i as int + 0x8000_0000_0000_0000) as nat, 8),
        RespFrame::BulkString(b) => seq![3u8] + b.0@,
        RespFrame::NullBulkString(_) => seq![4u8],
        RespFrame::Null(_) => seq![5u8],
        RespFrame::NullArray(_) => seq![6u8],
        RespFrame::Array(a) => seq![7u8] + keys_escaped(a.0@),
        RespFrame::Boolean(v) => seq![8u8, if v { 1u8 } else { 0u8 }],
        RespFrame::Double(w) => seq![9u8, if w.negative { 1u8 } else { 0u8 }] + magnitude_key(w),
        RespFrame::RespMap(m) => seq![10u8] + entry_keys_escaped(m.0@),
        RespFrame::RespSet(x) => seq![11u8] + keys_escaped(x.0@),
    }
}

pub open spec fn keys_escaped(s: Seq<RespFrame>) -> Seq<u8>
    decreases s,
{
    if s.len() == 0 {
        Seq::empty()
    } else {
        keys_escaped(s.drop_last()) + escaped(order_key(s.last()))
    }
}

pub open spec fn entry_keys_escaped(s: Seq<(String, RespFrame)>) -> Seq<u8>
    decreases s,
{
    if s.len() == 0 {
        Seq::empty()
    } else {
        entry_keys_escaped(s.drop_last()) + escaped(text_bytes(s.last().0)) + escaped(
            order_key(s.last().1),
        )
    }
}

/// A frame's rank: its order key, then its wire bytes to settle ties.
pub open spec fn rank(f: RespFrame) -> (Seq<u8>, Seq<u8>) {
    (order_key(f), frame_bytes(f))
}

/// Strict order on ranks: by order key, then by wire bytes.
pub open spec fn rank_lt(a: (Seq<u8>, Seq<u8>), b: (Seq<u8>, Seq<u8>)) -> bool {
    bytes_lt(a.0, b.0) || (a.0 == b.0 && bytes_lt(a.1, b.1))
}

pub proof fn lemma_rank_lt_irreflexive(a: (Seq<u8>, Seq<u8>))
    ensures
        !rank_lt(a, a),
{
    lemma_bytes_lt_irreflexive(a.0);
    lemma_bytes_lt_irreflexive(a.1);
}

pub proof fn lemma_rank_lt_transitive(a: (Seq<u8>, Seq<u8>), b: (Seq<u8>, Seq<u8>), c: (Seq<u8>, Seq<u8>))
    requires
        rank_lt(a, b),
        rank_lt(b, c),
    ensures
        rank_lt(a, c),
{
    if bytes_lt(a.0, b.0) && bytes_lt(b.0, c.0) {
        lemma_bytes_lt_transitive(a.0, b.0, c.0);
    } else if a.0 == b.0 && b.0 == c.0 {
        lemma_bytes_lt_transitive(a.1, b.1, c.1);
    }
}

pub proof fn lemma_rank_lt_asymmetric(a: (Seq<u8>, Seq<u8>), b: (Seq<u8>, Seq<u8>))
    requires
        rank_lt(a, b),
    ensures
        !rank_lt(b, a),
{
    if rank_lt(b, a) {
        lemma_rank_lt_transitive(a, b, a);
        lemma_rank_lt_irreflexive(a);
    }
}

fn push_big_endian(buf: &mut Vec<u8>, n: u64, k: u32)
    ensures
        final(buf)@ == old(buf)@ + big_endian(n as nat, k as nat),
    decreases k,
{
    if k > 0 {
        push_big_endian(buf, n / 256, k - 1);
        buf.push((n % 256) as u8);
    }
    proof {
        assert(final(buf)@ =~= old(buf)@ + big_endian(n as nat, k as nat));
    }
}

fn push_magnitude_key(w: &FloatWrapper, buf: &mut Vec<u8>)
    requires
        w.wf(),
    ensures
        final(buf)@ == old(buf)@ + magnitude_key(*w),
{
    if w.nan {
        buf.push(3u8);
    } else if w.infinite {
        buf.push(2u8);
    } else if w.mantissa == 0 {
        buf.push(0u8);
    } else {
        buf.push(1u8);
        let mut d: Vec<u8> = Vec::new();
        push_decimal(&mut d, w.mantissa);
        proof {
            assert(d@ =~= decimal(w.mantissa as nat));
            lemma_u64_decimal_len(w.mantissa);
        }
        let e: i64 = w.exponent as i64 + d.len() as i64 - 1;
        push_big_endian(buf, (e + 0x8000_0000i64) as u64, 4);
        push_all(buf, d.as_slice());
    }
    proof {
        assert(final(buf)@ =~= old(buf)@ + magnitude_key(*w));
    }
}

fn push_escaped(buf: &mut Vec<u8>, x: &Vec<u8>)
    ensures
        final(buf)@ == old(buf)@ + escaped(x@),
{
    let ghost body = Seq::new(2 * x@.len(), |i: int| if i % 2 == 0 { 1u8 } else { x@[i / 2] });
    let mut i: usize = 0;
    while i < x.len()
        invariant
            i <= x@.len(),
            body == Seq::new(2 * x@.len(), |i: int| if i % 2 == 0 { 1u8 } else { x@[i / 2] }),
            buf@ == old(buf)@ + body.subrange(0, 2 * i),
        decreases x@.len() - i,
    {
        buf.push(1u8);
        buf.push(x[i]);
        proof {
            assert(body[2 * i as int] == 1u8);
            assert(body[2 * i + 1] == x@[i as int]);
            assert(buf@ =~= old(buf)@ + body.subrange(0, 2 * (i + 1)));
        }
        i = i + 1;
    }
    buf.push(0u8);
    proof {
        assert(body.subrange(0, 2 * i as int) =~= body);
        assert(final(buf)@ =~= old(buf)@ + escaped(x@));
    }
}

fn push_text(buf: &mut Vec<u8>, t: &String)
    ensures
        final(buf)@ == old(buf)@ + text_bytes(*t),
{
    let b = t.as_str().as_bytes();
    let mut i: usize = 0;
    while i < b.len()
        invariant
            i <= b@.len(),
            b@ == text_bytes(*t),
            buf@ == old(buf)@ + b@.subrange(0, i as int),
        decreases b@.len() - i,
    {
        buf.push(b[i]);
        i = i + 1;
        proof {
            assert(buf@ =~= old(buf)@ + b@.subrange(0, i as int));
        }
    }
    proof {
        assert(b@.subrange(0, i as int) =~= b@);
    }
}

/// Appends the order key of `f`.
pub fn push_order_key(f: &RespFrame, buf: &mut Vec<u8>)
    requires
        frame_wf(*f),
    ensures
        final(buf)@ == old(buf)@ + order_key(*f),
    decreases f,
{
    match f {
        RespFrame::SimpleString(s) => {
            buf.push(0u8);
            push_text(buf, &s.0);
        },
        RespFrame::Error(e) => {
            buf.push(1u8);
            push_text(buf, &e.0);
        },
        RespFrame::Integer(i) => {
            buf.push(2u8);
            push_big_endian(buf, (*i as i128 + 0x8000_0000_0000_0000i128) as u64, 8);
        },
        RespFrame::BulkString(b) => {
            buf.push(3u8);
            let mut j: usize = 0;
            while j < b.0.len()
                invariant
                    j <= b.0@.len(),
                    buf@ == old(buf)@ + seq![3u8] + b.0@.subrange(0, j as int),
                decreases b.0@.len() - j,
            {
                buf.push(b.0[j]);
                j = j + 1;
                proof {
                    assert(buf@ =~= old(buf)@ + seq![3u8] + b.0@.subrange(0, j as int));
                }
            }
            proof {
                assert(b.0@.subrange(0, j as int) =~= b.0@);
            }
        },
        RespFrame::NullBulkString(_) => buf.push(4u8),
        RespFrame::Null(_) => buf.push(5u8),
        RespFrame::NullArray(_) => buf.push(6u8),
        RespFrame::Array(a) => {
            buf.push(7u8);
            push_keys(f, &a.0, buf);
        },
        RespFrame::Boolean(v) => {
            buf.push(8u8);
            buf.push(if *v { 1u8 } else { 0u8 });
        },
        RespFrame::Double(w) => {
            buf.push(9u8);
            buf.push(if w.negative { 1u8 } else { 0u8 });
            push_magnitude_key(w, buf);
        },
        RespFrame::RespMap(m) => {
            buf.push(10u8);
            push_entry_keys(f, &m.0, buf);
        },
        RespFrame::RespSet(x) => {
            buf.push(11u8);
            push_keys(f, &x.0, buf);
        },
    }
    proof {
        assert(final(buf)@ =~= old(buf)@ + order_key(*f));
    }
}

fn push_keys(parent: &RespFrame, v: &Vec<RespFrame>, buf: &mut Vec<u8>)
    requires
        frames_wf(v@),
        decreases_to!(*parent => v@),
    ensures
        final(buf)@ == old(buf)@ + keys_escaped(v@),
    decreases parent, 0nat,
{
    let mut i: usize = 0;
    while i < v.len()
        invariant
            i <= v@.len(),
            frames_wf(v@),
            decreases_to!(*parent => v@),
            buf@ == old(buf)@ + keys_escaped(v@.subrange(0, i as int)),
        decreases v@.len() - i,
    {
        proof {
            lemma_frames_wf_index(v@, i as int);
            assert(decreases_to!(v@ => v@[i as int]));
        }
        let mut k: Vec<u8> = Vec::new();
        push_order_key(&v[i], &mut k);
        push_escaped(buf, &k);
        proof {
            assert(k@ =~= order_key(v@[i as int]));
            assert(v@.subrange(0, i + 1).drop_last() =~= v@.subrange(0, i as int));
        }
        i = i + 1;
    }
    proof {
        assert(v@.subrange(0, i as int) =~= v@);
    }
}

fn push_entry_keys(parent: &RespFrame, v: &Vec<(String, RespFrame)>, buf: &mut Vec<u8>)
    requires
        entries_wf(v@),
        decreases_to!(*parent => v@),
    ensures
        final(buf)@ == old(buf)@ + entry_keys_escaped(v@),
    decreases parent, 0nat,
{
    let mut i: usize = 0;
    while i < v.len()
        invariant
            i <= v@.len(),
            entries_wf(v@),
            decreases_to!(*parent => v@),
            buf@ == old(buf)@ + entry_keys_escaped(v@.subrange(0, i as int)),
        decreases v@.len() - i,
    {
        proof {
            lemma_entries_wf_index(v@, i as int);
            assert(decreases_to!(v@ => v@[i as int]));
        }
        let entry = &v[i];
        let mut t: Vec<u8> = Vec::new();
        push_text(&mut t, &entry.0);
        push_escaped(buf, &t);
        let mut k: Vec<u8> = Vec::new();
        push_order_key(&entry.1, &mut k);
        push_escaped(buf, &k);
        proof {
            assert(t@ =~= text_bytes(v@[i as int].0));
            assert(k@ =~= order_key(v@[i as int].1));
            assert(v@.subrange(0, i + 1).drop_last() =~= v@.subrange(0, i as int));
        }
        i = i + 1;
    }
    proof {
        assert(v@.subrange(0, i as int) =~= v@);
    }
}

} // verus!
