use vstd::prelude::*;
use crate::collection::{has_entry, has_member};
use crate::encode::{entries_bytes, frame_bytes, frames_bytes, frames_sorted, keys_sorted};
use crate::frame::{text_bytes, RespFrame, RespMap, RespSet};
use crate::order::{bytes_lt, lemma_bytes_lt_asymmetric, lemma_bytes_lt_irreflexive};
use crate::rank::{lemma_rank_lt_asymmetric, lemma_rank_lt_irreflexive, rank, rank_lt};

verus! {

proof fn lemma_entries_canonical(s1: Seq<(String, RespFrame)>, s2: Seq<(String, RespFrame)>)
    requires
        keys_sorted(s1),
        keys_sorted(s2),
        forall|k: Seq<u8>, v: RespFrame| has_entry(s1, k, v) <==> has_entry(s2, k, v),
    ensures
        s1.len() == s2.len(),
        entries_bytes(s1) == entries_bytes(s2),
    decreases s1.len(),
{
    if s1.len() == 0 && s2.len() > 0 {
        assert(has_entry(s2, text_bytes(s2[0].0), s2[0].1));
    } else if s2.len() == 0 && s1.len() > 0 {
        assert(has_entry(s1, text_bytes(s1[0].0), s1[0].1));
    } else if s1.len() > 0 {
        let l1 = s1.len() - 1;
        let l2 = s2.len() - 1;
        let ka = text_bytes(s1[l1].0);
        let kb = text_bytes(s2[l2].0);
        assert(has_entry(s1, ka, s1[l1].1));
        assert(has_entry(s2, kb, s2[l2].1));
        let j = choose|j: int| 0 <= j < s2.len() && text_bytes(s2[j].0) == ka && s2[j].1 == s1[l1].1;
        let i = choose|i: int| 0 <= i < s1.len() && text_bytes(s1[i].0) == kb && s1[i].1 == s2[l2].1;
        lemma_bytes_lt_irreflexive(ka);
        if j < l2 {
            assert(bytes_lt(ka, kb));
            if i < l1 {
                assert(bytes_lt(kb, ka));
                lemma_bytes_lt_asymmetric(ka, kb);
            }
        }
        assert(j == l2);
        let d1 = s1.drop_last();
        let d2 = s2.drop_last();
        assert forall|k: Seq<u8>, v: RespFrame| has_entry(d1, k, v) <==> has_entry(d2, k, v) by {
            if has_entry(d1, k, v) {
                let x = choose|x: int| 0 <= x < d1.len() && text_bytes(d1[x].0) == k && d1[x].1 == v;
                assert(s1[x] == d1[x]);
                assert(bytes_lt(k, ka));
                assert(has_entry(s1, k, v));
                let y = choose|y: int| 0 <= y < s2.len() && text_bytes(s2[y].0) == k && s2[y].1 == v;
                if y == l2 {
                    lemma_bytes_lt_irreflexive(k);
                }
                assert(d2[y] == s2[y]);
            }
            if has_entry(d2, k, v) {
                let x = choose|x: int| 0 <= x < d2.len() && text_bytes(d2[x].0) == k && d2[x].1 == v;
                assert(s2[x] == d2[x]);
                assert(bytes_lt(k, kb));
                assert(has_entry(s2, k, v));
                let y = choose|y: int| 0 <= y < s1.len() && text_bytes(s1[y].0) == k && s1[y].1 == v;
                if y == l1 {
                    lemma_bytes_lt_irreflexive(k);
                }
                assert(d1[y] == s1[y]);
            }
        }
        lemma_entries_canonical(d1, d2);
    }
}

proof fn lemma_members_canonical(s1: Seq<RespFrame>, s2: Seq<RespFrame>)
    requires
        frames_sorted(s1),
        frames_sorted(s2),
        forall|e: (Seq<u8>, Seq<u8>)| has_member(s1, e) <==> has_member(s2, e),
    ensures
        s1.len() == s2.len(),
        frames_bytes(s1) == frames_bytes(s2),
    decreases s1.len(),
{
    if s1.len() == 0 && s2.len() > 0 {
        assert(has_member(s2, rank(s2[0])));
    } else if s2.len() == 0 && s1.len() > 0 {
        assert(has_member(s1, rank(s1[0])));
    } else if s1.len() > 0 {
        let l1 = s1.len() - 1;
        let l2 = s2.len() - 1;
        let ka = rank(s1[l1]);
        let kb = rank(s2[l2]);
        assert(has_member(s1, ka));
        assert(has_member(s2, kb));
        let j = choose|j: int| 0 <= j < s2.len() && rank(s2[j]) == ka;
        let i = choose|i: int| 0 <= i < s1.len() && rank(s1[i]) == kb;
        lemma_rank_lt_irreflexive(ka);
        if j < l2 {
            assert(rank_lt(ka, kb));
            if i < l1 {
                assert(rank_lt(kb, ka));
                lemma_rank_lt_asymmetric(ka, kb);
            }
        }
        assert(j == l2);
        let d1 = s1.drop_last();
        let d2 = s2.drop_last();
        assert forall|e: (Seq<u8>, Seq<u8>)| has_member(d1, e) <==> has_member(d2, e) by {
            if has_member(d1, e) {
                let x = choose|x: int| 0 <= x < d1.len() && rank(d1[x]) == e;
                assert(s1[x] == d1[x]);
                assert(rank_lt(e, ka));
                assert(has_member(s1, e));
                let y = choose|y: int| 0 <= y < s2.len() && rank(s2[y]) == e;
                if y == l2 {
                    lemma_rank_lt_irreflexive(e);
                }
                assert(d2[y] == s2[y]);
            }
            if has_member(d2, e) {
                let x = choose|x: int| 0 <= x < d2.len() && rank(d2[x]) == e;
                assert(s2[x] == d2[x]);
                assert(rank_lt(e, kb));
                assert(has_member(s2, e));
                let y = choose|y: int| 0 <= y < s1.len() && rank(s1[y]) == e;
                if y == l1 {
                    lemma_rank_lt_irreflexive(e);
                }
                assert(d1[y] == s1[y]);
            }
        }
        lemma_members_canonical(d1, d2);
        assert(frame_bytes(s1[l1]) == ka.1 && frame_bytes(s2[l2]) == kb.1);
    }
}

/// Maps that hold the same entries have the same wire bytes, whatever order the entries
/// were inserted in.
pub proof fn law_map_encoding_canonical(m1: RespMap, m2: RespMap)
    requires
        m1.wf(),
        m2.wf(),
        forall|k: Seq<u8>, v: RespFrame| has_entry(m1.0@, k, v) <==> has_entry(m2.0@, k, v),
    ensures
        frame_bytes(RespFrame::RespMap(m1)) == frame_bytes(RespFrame::RespMap(m2)),
{
    lemma_entries_canonical(m1.0@, m2.0@);
}

/// Sets that hold the same members have the same wire bytes, whatever order the members
/// were given in.
pub proof fn law_set_encoding_canonical(s1: RespSet, s2: RespSet)
    requires
        s1.wf(),
        s2.wf(),
        forall|e: (Seq<u8>, Seq<u8>)| has_member(s1.0@, e) <==> has_member(s2.0@, e),
    ensures
        frame_bytes(RespFrame::RespSet(s1)) == frame_bytes(RespFrame::RespSet(s2)),
{
    lemma_members_canonical(s1.0@, s2.0@);
}

} // verus!
