use vstd::prelude::*;
use vstd::utf8::encode_utf8;
use crate::encode::{
    encode_into, entries_wf, frame_bytes, frame_wf, frames_sorted, frames_wf, keys_sorted,
};
use crate::frame::{single_line, text_bytes, RespFrame, RespMap, RespSet};
use crate::rank::{lemma_rank_lt_transitive, push_order_key, rank, rank_lt};
use crate::order::{
    bytes_lt, compare_bytes, lemma_bytes_lt_irreflexive, lemma_bytes_lt_transitive,
};

verus! {

/// Every entry is on one line and well formed.
pub open spec fn entries_ok(s: Seq<(String, RespFrame)>) -> bool {
    forall|i: int| 0 <= i < s.len() ==> single_line(text_bytes(#[trigger] s[i].0)) && frame_wf(
        s[i].1,
    )
}

/// Every frame is well formed.
pub open spec fn frames_ok(s: Seq<RespFrame>) -> bool {
    forall|i: int| 0 <= i < s.len() ==> frame_wf(#[trigger] s[i])
}

pub proof fn lemma_entries_ok(s: Seq<(String, RespFrame)>)
    ensures
        entries_wf(s) <==> entries_ok(s),
    decreases s.len(),
{
    if s.len() > 0 {
        lemma_entries_ok(s.drop_last());
        if entries_ok(s) {
            assert(entries_ok(s.drop_last()));
        }
        if entries_wf(s) {
            assert forall|i: int| 0 <= i < s.len() implies single_line(text_bytes(
                #[trigger] s[i].0,
            )) && frame_wf(s[i].1) by {
                if i < s.len() - 1 {
                    assert(s[i] == s.drop_last()[i]);
                }
            }
        }
    }
}

pub proof fn lemma_frames_ok(s: Seq<RespFrame>)
    ensures
        frames_wf(s) <==> frames_ok(s),
    decreases s.len(),
{
    if s.len() > 0 {
        lemma_frames_ok(s.drop_last());
        if frames_ok(s) {
            assert(frames_ok(s.drop_last()));
        }
        if frames_wf(s) {
            assert forall|i: int| 0 <= i < s.len() implies frame_wf(#[trigger] s[i]) by {
                if i < s.len() - 1 {
                    assert(s[i] == s.drop_last()[i]);
                }
            }
        }
    }
}

/// The entries hold `v` under the key whose bytes are `k`.
pub open spec fn has_entry(s: Seq<(String, RespFrame)>, k: Seq<u8>, v: RespFrame) -> bool {
    exists|i: int| 0 <= i < s.len() && text_bytes(s[i].0) == k && s[i].1 == v
}

/// Some member of `s` has the rank `e`: the same place in the frame order and the same wire
/// bytes.
pub open spec fn has_member(s: Seq<RespFrame>, e: (Seq<u8>, Seq<u8>)) -> bool {
    exists|i: int| 0 <= i < s.len() && rank(s[i]) == e
}

/// The two byte strings of a rank held in vectors.
pub open spec fn pv(p: (Vec<u8>, Vec<u8>)) -> (Seq<u8>, Seq<u8>) {
    (p.0@, p.1@)
}

impl RespMap {
    /// Keys sorted and unique, entries well formed.
    pub open spec fn wf(&self) -> bool {
        entries_wf(self.0@) && keys_sorted(self.0@)
    }

    /// An empty map.
    pub fn new_map() -> (r: RespMap)
        ensures
            r.wf(),
            r.0@.len() == 0,
    {
        RespMap(Vec::new())
    }

    /// Sets `key` to `value`, replacing any value that the key had.
    pub fn insert(&mut self, key: String, value: RespFrame)
        requires
            old(self).wf(),
            single_line(text_bytes(key)),
            frame_wf(value),
        ensures
            final(self).wf(),
            forall|k: Seq<u8>, v: RespFrame|
                has_entry(final(self).0@, k, v) <==> if k == text_bytes(key) {
                    v == value
                } else {
                    has_entry(old(self).0@, k, v)
                },
    {
        let ghost kb = text_bytes(key);
        let (p, found) = key_position(&self.0, key.as_str());
        let ghost s = self.0@;
        proof {
            lemma_entries_ok(s);
        }
        if found {
            self.0.remove(p);
            self.0.insert(p, (key, value));
            proof {
                let n = self.0@;
                assert(n =~= s.update(p as int, (key, value)));
                assert forall|a: int, b: int| 0 <= a < b < n.len() implies bytes_lt(
                    text_bytes(#[trigger] n[a].0),
                    text_bytes(#[trigger] n[b].0),
                ) by {
                    assert(bytes_lt(text_bytes(s[a].0), text_bytes(s[b].0)));
                }
                assert forall|j: int| 0 <= j < n.len() implies single_line(text_bytes(#[trigger] n[j].0))
                    && frame_wf(n[j].1) by {
                    if j != p {
                        assert(n[j] == s[j]);
                        assert(single_line(text_bytes(s[j].0)) && frame_wf(s[j].1));
                    } else {
                        assert(n[j] == (key, value));
                    }
                }
                lemma_entries_ok(n);
                lemma_entries_absent_update(s, n, p as int, kb);
            }
        } else {
            self.0.insert(p, (key, value));
            proof {
                lemma_insert_entry(s, self.0@, p as int, kb);
            }
        }
    }
}

/// Where `key` stands among sorted entries: the first position whose key is not below it,
/// and whether that key equals it.
fn key_position(v: &Vec<(String, RespFrame)>, key: &str) -> (r: (usize, bool))
    requires
        keys_sorted(v@),
    ensures
        r.0 <= v@.len(),
        forall|j: int| 0 <= j < r.0 ==> bytes_lt(text_bytes(#[trigger] v@[j].0), encode_utf8(key@)),
        r.1 ==> r.0 < v@.len() && text_bytes(v@[r.0 as int].0) == encode_utf8(key@),
        !r.1 && r.0 < v@.len() ==> bytes_lt(encode_utf8(key@), text_bytes(v@[r.0 as int].0)),
{
    let mut i: usize = 0;
    while i < v.len()
        invariant
            i <= v@.len(),
            forall|j: int| 0 <= j < i ==> bytes_lt(text_bytes(#[trigger] v@[j].0), encode_utf8(key@)),
        decreases v@.len() - i,
    {
        let c = compare_bytes(v[i].0.as_str().as_bytes(), key.as_bytes());
        if c != -1 {
            return (i, c == 0);
        }
        i = i + 1;
    }
    (i, false)
}

proof fn lemma_insert_entry(s: Seq<(String, RespFrame)>, n: Seq<(String, RespFrame)>, p: int, kb: Seq<u8>)
    requires
        0 <= p <= s.len(),
        n.len() == s.len() + 1,
        keys_sorted(s),
        entries_ok(s),
        single_line(text_bytes(n[p].0)),
        frame_wf(n[p].1),
        text_bytes(n[p].0) == kb,
        forall|j: int| 0 <= j < p ==> n[j] == s[j],
        forall|j: int| p < j < n.len() ==> n[j] == s[j - 1],
        forall|j: int| 0 <= j < p ==> bytes_lt(text_bytes(#[trigger] s[j].0), kb),
        p < s.len() ==> bytes_lt(kb, text_bytes(s[p].0)),
    ensures
        entries_wf(n),
        keys_sorted(n),
        forall|k: Seq<u8>, v: RespFrame| has_entry(n, k, v) <==> if k == kb {
            v == n[p].1
        } else {
            has_entry(s, k, v)
        },
{
    assert forall|j: int| 0 <= j < s.len() implies text_bytes(#[trigger] s[j].0) != kb by {
        lemma_bytes_lt_irreflexive(kb);
        if j > p {
            lemma_bytes_lt_transitive(kb, text_bytes(s[p].0), text_bytes(s[j].0));
        }
    }
    assert forall|a: int, b: int| 0 <= a < b < n.len() implies bytes_lt(
        text_bytes(#[trigger] n[a].0),
        text_bytes(#[trigger] n[b].0),
    ) by {
        if b < p {
        } else if b == p {
        } else if a < p {
            lemma_bytes_lt_transitive(text_bytes(s[a].0), kb, text_bytes(s[p].0));
            if b - 1 > p {
                lemma_bytes_lt_transitive(text_bytes(s[a].0), text_bytes(s[p].0), text_bytes(s[b - 1].0));
            }
        } else if a == p {
            if b - 1 > p {
                lemma_bytes_lt_transitive(kb, text_bytes(s[p].0), text_bytes(s[b - 1].0));
            }
        } else {
            assert(bytes_lt(text_bytes(s[a - 1].0), text_bytes(s[b - 1].0)));
        }
    }
    assert forall|j: int| 0 <= j < n.len() implies single_line(text_bytes(#[trigger] n[j].0))
        && frame_wf(n[j].1) by {
        if j > p {
            assert(n[j] == s[j - 1]);
        }
    }
    lemma_entries_ok(n);
    assert forall|k: Seq<u8>, v: RespFrame| has_entry(n, k, v) <==> if k == kb {
        v == n[p].1
    } else {
        has_entry(s, k, v)
    } by {
        if has_entry(n, k, v) {
            let j = choose|j: int| 0 <= j < n.len() && text_bytes(n[j].0) == k && n[j].1 == v;
            if j < p {
                assert(n[j] == s[j]);
            } else if j > p {
                assert(n[j] == s[j - 1]);
            }
        }
        if k == kb && v == n[p].1 {
            assert(text_bytes(n[p].0) == k);
        }
        if k != kb && has_entry(s, k, v) {
            let j = choose|j: int| 0 <= j < s.len() && text_bytes(s[j].0) == k && s[j].1 == v;
            if j < p {
                assert(n[j] == s[j]);
            } else {
                assert(n[j + 1] == s[j]);
            }
        }
    }
}

proof fn lemma_entries_absent_update(s: Seq<(String, RespFrame)>, n: Seq<(String, RespFrame)>, p: int, kb: Seq<u8>)
    requires
        0 <= p < s.len(),
        n.len() == s.len(),
        keys_sorted(s),
        text_bytes(s[p].0) == kb,
        text_bytes(n[p].0) == kb,
        forall|j: int| 0 <= j < s.len() && j != p ==> n[j] == s[j],
    ensures
        forall|k: Seq<u8>, v: RespFrame| has_entry(n, k, v) <==> if k == kb {
            v == n[p].1
        } else {
            has_entry(s, k, v)
        },
{
    assert forall|k: Seq<u8>, v: RespFrame| has_entry(n, k, v) <==> if k == kb {
        v == n[p].1
    } else {
        has_entry(s, k, v)
    } by {
        if has_entry(n, k, v) {
            let j = choose|j: int| 0 <= j < n.len() && text_bytes(n[j].0) == k && n[j].1 == v;
            if j != p && k == kb {
                if j < p {
                    assert(bytes_lt(text_bytes(s[j].0), text_bytes(s[p].0)));
                } else {
                    assert(bytes_lt(text_bytes(s[p].0), text_bytes(s[j].0)));
                }
                lemma_bytes_lt_irreflexive(kb);
            }
        }
        if k == kb && v == n[p].1 {
            assert(text_bytes(n[p].0) == k);
        }
        if k != kb && has_entry(s, k, v) {
            let j = choose|j: int| 0 <= j < s.len() && text_bytes(s[j].0) == k && s[j].1 == v;
            assert(n[j] == s[j]);
        }
    }
}

/// Ranks in strictly increasing order.
pub open spec fn encodings_sorted(s: Seq<(Vec<u8>, Vec<u8>)>) -> bool {
    forall|i: int, j: int| 0 <= i < j < s.len() ==> rank_lt(pv(#[trigger] s[i]), pv(#[trigger] s[j]))
}

/// Where `e` stands among sorted encodings: the first position not below it, and whether the
/// encoding there equals it.
fn encoding_position(v: &Vec<(Vec<u8>, Vec<u8>)>, e: &(Vec<u8>, Vec<u8>)) -> (r: (usize, bool))
    requires
        encodings_sorted(v@),
    ensures
        r.0 <= v@.len(),
        forall|j: int| 0 <= j < r.0 ==> rank_lt(pv(#[trigger] v@[j]), pv(*e)),
        r.1 ==> r.0 < v@.len() && pv(v@[r.0 as int]) == pv(*e),
        !r.1 && r.0 < v@.len() ==> rank_lt(pv(*e), pv(v@[r.0 as int])),
{
    let mut i: usize = 0;
    while i < v.len()
        invariant
            i <= v@.len(),
            forall|j: int| 0 <= j < i ==> rank_lt(pv(#[trigger] v@[j]), pv(*e)),
        decreases v@.len() - i,
    {
        let mut c = compare_bytes(v[i].0.as_slice(), e.0.as_slice());
        if c == 0 {
            c = compare_bytes(v[i].1.as_slice(), e.1.as_slice());
        }
        proof {
            lemma_bytes_lt_irreflexive(e.0@);
        }
        if c != -1 {
            return (i, c == 0);
        }
        i = i + 1;
    }
    (i, false)
}

impl RespSet {
    /// Members well formed, in strictly increasing frame order.
    pub open spec fn wf(&self) -> bool {
        frames_wf(self.0@) && frames_sorted(self.0@)
    }

    /// The set of the given frames: one member for each distinct frame, in increasing frame
    /// order (kind first, then payload).
    pub fn new(v: Vec<RespFrame>) -> (r: RespSet)
        requires
            frames_wf(v@),
        ensures
            r.wf(),
            forall|e: (Seq<u8>, Seq<u8>)| has_member(r.0@, e) <==> has_member(v@, e),
            forall|i: int| 0 <= i < r.0@.len() ==> v@.contains(#[trigger] r.0@[i]),
            forall|i: int| 0 <= i < v@.len() ==> has_member(r.0@, rank(#[trigger] v@[i])),
    {
        let ghost orig = v@;
        proof {
            lemma_frames_ok(orig);
        }
        let mut v = v;
        let mut out: Vec<RespFrame> = Vec::new();
        let mut encs: Vec<(Vec<u8>, Vec<u8>)> = Vec::new();
        while v.len() > 0
            invariant
                v@.len() <= orig.len(),
                v@ == orig.subrange(0, v@.len() as int),
                frames_ok(orig),
                encs@.len() == out@.len(),
                forall|i: int| 0 <= i < out@.len() ==> pv(#[trigger] encs@[i]) == rank(out@[i]),
                encodings_sorted(encs@),
                frames_ok(out@),
                forall|e: (Seq<u8>, Seq<u8>)| has_member(out@, e) <==> exists|j: int|
                    v@.len() <= j < orig.len() && rank(#[trigger] orig[j]) == e,
                forall|i: int| 0 <= i < out@.len() ==> orig.contains(#[trigger] out@[i]),
            decreases v@.len(),
        {
            let ghost len0 = v@.len();
            let f = match v.pop() {
                Some(f) => f,
                None => { return RespSet(out); },
            };
            proof {
                assert(orig[len0 - 1] == f);
                assert(v@ =~= orig.subrange(0, v@.len() as int));
            }
            let mut key: Vec<u8> = Vec::new();
            push_order_key(&f, &mut key);
            let mut wire: Vec<u8> = Vec::new();
            encode_into(&f, &mut wire);
            let e = (key, wire);
            let (p, found) = encoding_position(&encs, &e);
            let ghost s = out@;
            let ghost es = encs@;
            if !found {
                out.insert(p, f);
                encs.insert(p, e);
                proof {
                    lemma_insert_member(s, out@, es, encs@, p as int);
                }
            }
            proof {
                let n = out@;
                let eb = rank(f);
                assert(pv(e) == eb);
                if found {
                    assert(has_member(s, eb));
                }
                assert forall|x: (Seq<u8>, Seq<u8>)| has_member(n, x) <==> exists|j: int|
                    v@.len() <= j < orig.len() && rank(#[trigger] orig[j]) == x by {
                    if x == eb {
                        assert(rank(orig[v@.len() as int]) == x);
                    }
                    if exists|j: int| v@.len() <= j < orig.len() && rank(#[trigger] orig[j]) == x {
                        let j = choose|j: int| v@.len() <= j < orig.len() && rank(#[trigger] orig[j]) == x;
                        if j > v@.len() {
                            assert(has_member(s, x));
                        }
                    }
                    if has_member(s, x) {
                        let j = choose|j: int| len0 <= j < orig.len() && rank(#[trigger] orig[j]) == x;
                        assert(v@.len() <= j);
                    }
                }
                assert forall|i: int| 0 <= i < n.len() implies orig.contains(#[trigger] n[i]) by {
                    if !found && i == p {
                        assert(orig[len0 - 1] == n[i]);
                    } else if !found && i > p {
                        assert(n[i] == s[i - 1]);
                    } else {
                        assert(n[i] == s[i]);
                    }
                }
            }
        }
        proof {
            lemma_frames_ok(out@);
            assert forall|x: (Seq<u8>, Seq<u8>)| has_member(out@, x) <==> has_member(orig, x) by {
                if has_member(orig, x) {
                    let j = choose|j: int| 0 <= j < orig.len() && rank(orig[j]) == x;
                    assert(rank(orig[j]) == x);
                }
            }
            assert forall|i: int| 0 <= i < orig.len() implies has_member(out@, rank(#[trigger] orig[i])) by {
                assert(has_member(orig, rank(orig[i])));
            }
            assert forall|i: int, j: int| 0 <= i < j < out@.len() implies rank_lt(
                rank(#[trigger] out@[i]),
                rank(#[trigger] out@[j]),
            ) by {
                assert(rank_lt(pv(encs@[i]), pv(encs@[j])));
            }
        }
        RespSet(out)
    }
}

proof fn lemma_insert_member(
    s: Seq<RespFrame>,
    n: Seq<RespFrame>,
    es: Seq<(Vec<u8>, Vec<u8>)>,
    ns: Seq<(Vec<u8>, Vec<u8>)>,
    p: int,
)
    requires
        0 <= p <= s.len(),
        es.len() == s.len(),
        n == s.insert(p, n[p]),
        ns == es.insert(p, ns[p]),
        pv(ns[p]) == rank(n[p]),
        frame_wf(n[p]),
        frames_ok(s),
        encodings_sorted(es),
        forall|i: int| 0 <= i < s.len() ==> pv(#[trigger] es[i]) == rank(s[i]),
        forall|j: int| 0 <= j < p ==> rank_lt(pv(#[trigger] es[j]), pv(ns[p])),
        p < s.len() ==> rank_lt(pv(ns[p]), pv(es[p])),
    ensures
        encodings_sorted(ns),
        frames_ok(n),
        forall|i: int| 0 <= i < n.len() ==> pv(#[trigger] ns[i]) == rank(n[i]),
        forall|x: (Seq<u8>, Seq<u8>)| has_member(n, x) <==> x == rank(n[p]) || has_member(s, x),
{
    let eb = pv(ns[p]);
    assert forall|a: int, b: int| 0 <= a < b < ns.len() implies rank_lt(
        pv(#[trigger] ns[a]),
        pv(#[trigger] ns[b]),
    ) by {
        if b < p {
        } else if b == p {
        } else if a < p {
            lemma_rank_lt_transitive(pv(es[a]), eb, pv(es[p]));
            if b - 1 > p {
                lemma_rank_lt_transitive(pv(es[a]), pv(es[p]), pv(es[b - 1]));
            }
        } else if a == p {
            if b - 1 > p {
                lemma_rank_lt_transitive(eb, pv(es[p]), pv(es[b - 1]));
            }
        } else {
            assert(rank_lt(pv(es[a - 1]), pv(es[b - 1])));
        }
    }
    assert forall|i: int| 0 <= i < n.len() implies frame_wf(#[trigger] n[i]) by {
        if i > p {
            assert(n[i] == s[i - 1]);
        }
    }
    assert forall|i: int| 0 <= i < n.len() implies pv(#[trigger] ns[i]) == rank(n[i]) by {
        if i > p {
            assert(n[i] == s[i - 1]);
            assert(ns[i] == es[i - 1]);
        }
    }
    assert forall|x: (Seq<u8>, Seq<u8>)| has_member(n, x) <==> x == rank(n[p]) || has_member(s, x) by {
        if has_member(n, x) {
            let j = choose|j: int| 0 <= j < n.len() && rank(n[j]) == x;
            if j < p {
                assert(n[j] == s[j]);
            } else if j > p {
                assert(n[j] == s[j - 1]);
            }
        }
        if x == rank(n[p]) {
            assert(rank(n[p]) == x);
        }
        if has_member(s, x) {
            let j = choose|j: int| 0 <= j < s.len() && rank(s[j]) == x;
            if j < p {
                assert(n[j] == s[j]);
            } else {
                assert(n[j + 1] == s[j]);
            }
        }
    }
}

} // verus!
