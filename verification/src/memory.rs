//! The memory store: ingestion (chunking and tagging), lexical retrieval
//! with citations, statistics, deletion and update, over the relational
//! model in `store`.

use vstd::math::min;
use vstd::prelude::*;

use crate::adapters::{format_rfc3339, fresh_uuid, lowercase, validate_import};
use crate::adapters::{is_valid_json, lower_of, rfc3339_of, MAX_TIMESTAMP_SECS};
use crate::chunk::{chunk_count, create_chunks};
use crate::errors::MemoryError;
use crate::store::{
    has_chunk, has_link, has_memory, has_tag_id, has_tag_named, lemma_owned_grow,
    lemma_tag_id_of_row, lemma_tag_id_present, lemma_tag_id_stable, memory_has_tag, rows_prefix,
    tag_id_of, ChunkRow, CitationRow, MemoryRow, MemoryTagRow, Store, TagRow,
};
use crate::text::{contains_sub, seq_contains_sub, str_eq, words_of};
use crate::types::{
    Citation, InsightsReport, MemoryEntry, MemoryStats, QueryRequest, QueryResult, SystemInfo,
    PLACEHOLDER_SCORE,
};

verus! {

/// The largest content length, in characters, that one memory may hold:
/// the storage layer's one-gigabyte text cap.
pub const MAX_CONTENT_LEN: usize = 0x4000_0000;

/// The shape of a chunk row inserted for chunk index `u` of a memory.
pub open spec fn added_chunk_ok(
    cr: ChunkRow,
    cid: Seq<char>,
    mid: Seq<char>,
    ctext: Seq<char>,
    u: int,
    now: u64,
) -> bool {
    &&& cr.id@ == cid
    &&& cr.memory_id@ == mid
    &&& cr.content@ == ctext
    &&& cr.start_pos == 100 * u
    &&& cr.end_pos == 100 * (u + 1)
    &&& cr.created_at == now
}

/// Ingestion, retrieval and maintenance of memories, over an owned
/// store.
pub struct MemoryManager {
    pub store: Store,
}

/// Looks up the position of a memory row by id.
fn find_memory(ms: &Vec<MemoryRow>, id: &str) -> (r: Option<usize>)
    ensures
        match r {
            Some(i) => i < ms@.len() && ms@[i as int].id@ == id@,
            None => !has_memory(ms@, id@),
        },
{
    let mut i: usize = 0;
    while i < ms.len()
        invariant
            i <= ms@.len(),
            forall|k: int| 0 <= k < i ==> (#[trigger] ms@[k]).id@ != id@,
        decreases ms@.len() - i,
    {
        if str_eq(ms[i].id.as_str(), id) {
            return Some(i);
        }
        i = i + 1;
    }
    None
}

/// Whether a chunk row with the id is present.
fn chunk_id_taken(cs: &Vec<ChunkRow>, id: &str) -> (r: bool)
    ensures
        r == has_chunk(cs@, id@),
{
    let mut i: usize = 0;
    while i < cs.len()
        invariant
            i <= cs@.len(),
            forall|k: int| 0 <= k < i ==> (#[trigger] cs@[k]).id@ != id@,
        decreases cs@.len() - i,
    {
        if str_eq(cs[i].id.as_str(), id) {
            return true;
        }
        i = i + 1;
    }
    false
}

/// Whether a tag row with the id is present.
fn tag_id_taken(ts: &Vec<TagRow>, id: &str) -> (r: bool)
    ensures
        r == has_tag_id(ts@, id@),
{
    let mut i: usize = 0;
    while i < ts.len()
        invariant
            i <= ts@.len(),
            forall|k: int| 0 <= k < i ==> (#[trigger] ts@[k]).id@ != id@,
        decreases ts@.len() - i,
    {
        if str_eq(ts[i].id.as_str(), id) {
            return true;
        }
        i = i + 1;
    }
    false
}

/// Whether a memory-tag link is present.
fn link_present(ls: &Vec<MemoryTagRow>, memory_id: &str, tag_id: &str) -> (r: bool)
    ensures
        r == has_link(ls@, memory_id@, tag_id@),
{
    let mut i: usize = 0;
    while i < ls.len()
        invariant
            i <= ls@.len(),
            forall|k: int|
                0 <= k < i ==> !((#[trigger] ls@[k]).memory_id@ == memory_id@ && ls@[k].tag_id@
                    == tag_id@),
        decreases ls@.len() - i,
    {
        if str_eq(ls[i].memory_id.as_str(), memory_id) && str_eq(ls[i].tag_id.as_str(), tag_id) {
            return true;
        }
        i = i + 1;
    }
    false
}

/// Whether one of the texts equals the given one.
fn string_in(v: &Vec<String>, s: &str) -> (r: bool)
    ensures
        r == (exists|i: int| 0 <= i < v.deep_view().len() && v.deep_view()[i] == s@),
{
    let mut i: usize = 0;
    while i < v.len()
        invariant
            i <= v.deep_view().len(),
            forall|k: int| 0 <= k < i ==> v.deep_view()[k] != s@,
        decreases v@.len() - i,
    {
        if str_eq(v[i].as_str(), s) {
            proof {
                assert(v.deep_view()[i as int] == s@);
            }
            return true;
        }
        i = i + 1;
    }
    false
}

/// One filtering step: pushing a row and filtering equals filtering and
/// conditionally pushing.
pub proof fn lemma_filter_push<A>(s: Seq<A>, x: A, pred: spec_fn(A) -> bool)
    ensures
        (s.push(x)).filter(pred) == if pred(x) {
            s.filter(pred).push(x)
        } else {
            s.filter(pred)
        },
{
    reveal(Seq::filter);
    assert(s.push(x).drop_last() =~= s);
    assert(s.push(x).last() == x);
}

/// Copies the chunk rows that do not belong to the memory.
#[verifier::loop_isolation(false)]
fn filter_chunks_not(cs: &Vec<ChunkRow>, id: &str) -> (r: Vec<ChunkRow>)
    requires
        forall|a: int, b: int|
            0 <= a < b < cs@.len() ==> (#[trigger] cs@[a]).id@ != (#[trigger] cs@[b]).id@,
    ensures
        r@ == cs@.filter(|c: ChunkRow| c.memory_id@ != id@),
        forall|a: int, b: int|
            0 <= a < b < r@.len() ==> (#[trigger] r@[a]).id@ != (#[trigger] r@[b]).id@,
        forall|a: int|
            0 <= a < r@.len() ==> exists|j: int| 0 <= j < cs@.len() && #[trigger] r@[a] == cs@[j],
{
    let ghost pred = |c: ChunkRow| c.memory_id@ != id@;
    let mut out: Vec<ChunkRow> = Vec::new();
    let mut i: usize = 0;
    proof {
        assert(cs@.take(0).filter(pred) =~= Seq::<ChunkRow>::empty());
        reveal(Seq::filter);
    }
    while i < cs.len()
        invariant
            i <= cs@.len(),
            out@ == cs@.take(i as int).filter(pred),
            forall|a: int, b: int|
                0 <= a < b < out@.len() ==> (#[trigger] out@[a]).id@ != (#[trigger] out@[b]).id@,
            forall|a: int|
                0 <= a < out@.len() ==> exists|j: int|
                    0 <= j < i && #[trigger] out@[a] == cs@[j],
        decreases cs@.len() - i,
    {
        proof {
            assert(cs@.take(i + 1) =~= cs@.take(i as int).push(cs@[i as int]));
            lemma_filter_push(cs@.take(i as int), cs@[i as int], pred);
        }
        if !str_eq(cs[i].memory_id.as_str(), id) {
            let ghost prev = out@;
            let row = ChunkRow {
                id: cs[i].id.clone(),
                memory_id: cs[i].memory_id.clone(),
                content: cs[i].content.clone(),
                start_pos: cs[i].start_pos,
                end_pos: cs[i].end_pos,
                created_at: cs[i].created_at,
            };
            proof {
                assert(row == cs@[i as int]);
            }
            out.push(row);
            proof {
                assert forall|a: int, b: int|
                    0 <= a < b < out@.len() implies (#[trigger] out@[a]).id@ != (
                #[trigger] out@[b]).id@ by {
                    if b == out@.len() - 1 {
                        let j = choose|j: int| 0 <= j < i && #[trigger] prev[a] == cs@[j];
                        assert(cs@[j].id@ != cs@[i as int].id@);
                    }
                }
            }
        }
        i = i + 1;
    }
    proof {
        assert(cs@.take(cs@.len() as int) =~= cs@);
    }
    out
}

/// Copies the memory rows that do not carry the id.
#[verifier::loop_isolation(false)]
fn filter_memories_not(ms: &Vec<MemoryRow>, id: &str) -> (r: Vec<MemoryRow>)
    requires
        forall|a: int, b: int|
            0 <= a < b < ms@.len() ==> (#[trigger] ms@[a]).id@ != (#[trigger] ms@[b]).id@,
    ensures
        r@ == ms@.filter(|m: MemoryRow| m.id@ != id@),
        forall|a: int, b: int|
            0 <= a < b < r@.len() ==> (#[trigger] r@[a]).id@ != (#[trigger] r@[b]).id@,
        forall|a: int|
            0 <= a < r@.len() ==> exists|j: int| 0 <= j < ms@.len() && #[trigger] r@[a] == ms@[j],
{
    let ghost pred = |m: MemoryRow| m.id@ != id@;
    let mut out: Vec<MemoryRow> = Vec::new();
    let mut i: usize = 0;
    proof {
        assert(ms@.take(0).filter(pred) =~= Seq::<MemoryRow>::empty());
        reveal(Seq::filter);
    }
    while i < ms.len()
        invariant
            i <= ms@.len(),
            out@ == ms@.take(i as int).filter(pred),
            forall|a: int, b: int|
                0 <= a < b < out@.len() ==> (#[trigger] out@[a]).id@ != (#[trigger] out@[b]).id@,
            forall|a: int|
                0 <= a < out@.len() ==> exists|j: int|
                    0 <= j < i && #[trigger] out@[a] == ms@[j],
        decreases ms@.len() - i,
    {
        proof {
            assert(ms@.take(i + 1) =~= ms@.take(i as int).push(ms@[i as int]));
            lemma_filter_push(ms@.take(i as int), ms@[i as int], pred);
        }
        if !str_eq(ms[i].id.as_str(), id) {
            let ghost prev = out@;
            let row = MemoryRow {
                id: ms[i].id.clone(),
                vault_id: ms[i].vault_id.clone(),
                title: clone_opt_string(&ms[i].title),
                content: ms[i].content.clone(),
                source: clone_opt_string(&ms[i].source),
                created_at: ms[i].created_at,
                updated_at: ms[i].updated_at,
            };
            proof {
                assert(row == ms@[i as int]);
            }
            out.push(row);
            proof {
                assert forall|a: int, b: int|
                    0 <= a < b < out@.len() implies (#[trigger] out@[a]).id@ != (
                #[trigger] out@[b]).id@ by {
                    if b == out@.len() - 1 {
                        let j = choose|j: int| 0 <= j < i && #[trigger] prev[a] == ms@[j];
                        assert(ms@[j].id@ != ms@[i as int].id@);
                    }
                }
            }
        }
        i = i + 1;
    }
    proof {
        assert(ms@.take(ms@.len() as int) =~= ms@);
    }
    out
}

/// Copies the memory-tag links that do not belong to the memory.
#[verifier::loop_isolation(false)]
fn filter_links_not(ls: &Vec<MemoryTagRow>, id: &str) -> (r: Vec<MemoryTagRow>)
    requires
        forall|a: int, b: int|
            0 <= a < b < ls@.len() ==> !((#[trigger] ls@[a]).memory_id@ == (
            #[trigger] ls@[b]).memory_id@ && ls@[a].tag_id@ == ls@[b].tag_id@),
    ensures
        r@ == ls@.filter(|l: MemoryTagRow| l.memory_id@ != id@),
        forall|a: int, b: int|
            0 <= a < b < r@.len() ==> !((#[trigger] r@[a]).memory_id@ == (
            #[trigger] r@[b]).memory_id@ && r@[a].tag_id@ == r@[b].tag_id@),
        forall|a: int|
            0 <= a < r@.len() ==> exists|j: int| 0 <= j < ls@.len() && #[trigger] r@[a] == ls@[j],
{
    let ghost pred = |l: MemoryTagRow| l.memory_id@ != id@;
    let mut out: Vec<MemoryTagRow> = Vec::new();
    let mut i: usize = 0;
    proof {
        assert(ls@.take(0).filter(pred) =~= Seq::<MemoryTagRow>::empty());
        reveal(Seq::filter);
    }
    while i < ls.len()
        invariant
            i <= ls@.len(),
            out@ == ls@.take(i as int).filter(pred),
            forall|a: int, b: int|
                0 <= a < b < out@.len() ==> !((#[trigger] out@[a]).memory_id@ == (
                #[trigger] out@[b]).memory_id@ && out@[a].tag_id@ == out@[b].tag_id@),
            forall|a: int|
                0 <= a < out@.len() ==> exists|j: int|
                    0 <= j < i && #[trigger] out@[a] == ls@[j],
        decreases ls@.len() - i,
    {
        proof {
            assert(ls@.take(i + 1) =~= ls@.take(i as int).push(ls@[i as int]));
            lemma_filter_push(ls@.take(i as int), ls@[i as int], pred);
        }
        if !str_eq(ls[i].memory_id.as_str(), id) {
            let ghost prev = out@;
            let row = MemoryTagRow {
                memory_id: ls[i].memory_id.clone(),
                tag_id: ls[i].tag_id.clone(),
            };
            proof {
                assert(row == ls@[i as int]);
            }
            out.push(row);
            proof {
                assert forall|a: int, b: int|
                    0 <= a < b < out@.len() implies !((#[trigger] out@[a]).memory_id@ == (
                #[trigger] out@[b]).memory_id@ && out@[a].tag_id@ == out@[b].tag_id@) by {
                    if b == out@.len() - 1 {
                        let j = choose|j: int| 0 <= j < i && #[trigger] prev[a] == ls@[j];
                        assert(!(ls@[j].memory_id@ == ls@[i as int].memory_id@ && ls@[j].tag_id@
                            == ls@[i as int].tag_id@));
                    }
                }
            }
        }
        i = i + 1;
    }
    proof {
        assert(ls@.take(ls@.len() as int) =~= ls@);
    }
    out
}

/// Copies the citation rows that do not belong to the memory.
#[verifier::loop_isolation(false)]
fn filter_citations_not(cs: &Vec<CitationRow>, id: &str) -> (r: Vec<CitationRow>)
    ensures
        r@ == cs@.filter(|c: CitationRow| c.memory_id@ != id@),
        forall|a: int|
            0 <= a < r@.len() ==> exists|j: int| 0 <= j < cs@.len() && #[trigger] r@[a] == cs@[j],
{
    let ghost pred = |c: CitationRow| c.memory_id@ != id@;
    let mut out: Vec<CitationRow> = Vec::new();
    let mut i: usize = 0;
    proof {
        assert(cs@.take(0).filter(pred) =~= Seq::<CitationRow>::empty());
        reveal(Seq::filter);
    }
    while i < cs.len()
        invariant
            i <= cs@.len(),
            out@ == cs@.take(i as int).filter(pred),
            forall|a: int|
                0 <= a < out@.len() ==> exists|j: int|
                    0 <= j < i && #[trigger] out@[a] == cs@[j],
        decreases cs@.len() - i,
    {
        proof {
            assert(cs@.take(i + 1) =~= cs@.take(i as int).push(cs@[i as int]));
            lemma_filter_push(cs@.take(i as int), cs@[i as int], pred);
        }
        if !str_eq(cs[i].memory_id.as_str(), id) {
            let row = CitationRow {
                id: cs[i].id.clone(),
                memory_id: cs[i].memory_id.clone(),
                chunk_id: cs[i].chunk_id.clone(),
                relevance_score: cs[i].relevance_score,
                created_at: cs[i].created_at,
            };
            proof {
                assert(row == cs@[i as int]);
            }
            out.push(row);
        }
        i = i + 1;
    }
    proof {
        assert(cs@.take(cs@.len() as int) =~= cs@);
    }
    out
}

/// Keys paired with row positions, in descending key order after a
/// stable insertion: the retrieval paths order rows by recency or score.
pub open spec fn sorted_desc(s: Seq<(u64, usize)>) -> bool {
    forall|a: int, b: int| 0 <= a < b < s.len() ==> (#[trigger] s[a]).0 >= (#[trigger] s[b]).0
}

/// Inserts a keyed position behind every at-least-as-large key: the
/// stable descending insertion.
pub open spec fn insert_desc(s: Seq<(u64, usize)>, x: (u64, usize)) -> Seq<(u64, usize)>
    decreases s.len(),
{
    if s.len() == 0 {
        seq![x]
    } else if x.0 > s[0].0 {
        seq![x] + s
    } else {
        seq![s[0]] + insert_desc(s.skip(1), x)
    }
}

/// Stable descending insertion sort over keyed positions.
pub open spec fn sort_desc(s: Seq<(u64, usize)>) -> Seq<(u64, usize)>
    decreases s.len(),
{
    if s.len() == 0 {
        Seq::empty()
    } else {
        insert_desc(sort_desc(s.drop_last()), s.last())
    }
}

/// Where the descending insertion lands: right after the keys at least
/// as large.
pub proof fn lemma_insert_desc_at(s: Seq<(u64, usize)>, x: (u64, usize), p: int)
    requires
        sorted_desc(s),
        0 <= p <= s.len(),
        forall|k: int| 0 <= k < p ==> (#[trigger] s[k]).0 >= x.0,
        p < s.len() ==> s[p].0 < x.0,
    ensures
        insert_desc(s, x) == s.subrange(0, p) + seq![x] + s.skip(p),
        sorted_desc(insert_desc(s, x)),
    decreases s.len(),
{
    if s.len() == 0 {
        assert(insert_desc(s, x) =~= s.subrange(0, p) + seq![x] + s.skip(p));
    } else if p == 0 {
        assert(x.0 > s[0].0);
        assert(insert_desc(s, x) == seq![x] + s);
        assert(insert_desc(s, x) =~= s.subrange(0, 0) + seq![x] + s.skip(0));
        assert forall|a: int, b: int|
            0 <= a < b < insert_desc(s, x).len() implies (#[trigger] insert_desc(s, x)[a]).0 >= (
        #[trigger] insert_desc(s, x)[b]).0 by {
            if a > 0 {
                assert(insert_desc(s, x)[a] == s[a - 1]);
                assert(insert_desc(s, x)[b] == s[b - 1]);
            } else {
                assert(insert_desc(s, x)[b] == s[b - 1]);
                assert(s[0].0 >= s[b - 1].0);
            }
        }
    } else {
        assert(s[0].0 >= x.0);
        assert(!(x.0 > s[0].0));
        let tail = s.skip(1);
        assert(forall|a: int, b: int|
            0 <= a < b < tail.len() ==> (#[trigger] tail[a]).0 >= (#[trigger] tail[b]).0);
        assert(forall|k: int| 0 <= k < p - 1 ==> (#[trigger] tail[k]).0 >= x.0);
        assert(p - 1 < tail.len() ==> tail[p - 1].0 < x.0);
        lemma_insert_desc_at(tail, x, p - 1);
        assert(insert_desc(s, x) == seq![s[0]] + insert_desc(tail, x));
        assert(seq![s[0]] + (tail.subrange(0, p - 1) + seq![x] + tail.skip(p - 1)) =~= s.subrange(
            0,
            p,
        ) + seq![x] + s.skip(p));
        let out = insert_desc(s, x);
        assert forall|a: int, b: int|
            0 <= a < b < out.len() implies (#[trigger] out[a]).0 >= (#[trigger] out[b]).0 by {
            let inner = insert_desc(tail, x);
            assert(sorted_desc(inner));
            if a == 0 {
                assert(out[0] == s[0]);
                assert(out[b] == inner[b - 1]);
                assert(inner == tail.subrange(0, p - 1) + seq![x] + tail.skip(p - 1));
                if b - 1 < p - 1 {
                    assert(inner[b - 1] == tail[b - 1]);
                    assert(s[0].0 >= tail[b - 1].0);
                } else if b - 1 == p - 1 {
                    assert(inner[b - 1] == x);
                    assert(s[0].0 >= x.0);
                } else {
                    assert(inner[b - 1] == tail[b - 2]);
                    assert(s[0].0 >= tail[b - 2].0);
                }
            } else {
                assert(out[a] == inner[a - 1]);
                assert(out[b] == inner[b - 1]);
            }
        }
    }
}

/// The position of the first key smaller than the probe, in a
/// descending sequence.
pub proof fn first_smaller_pos(s: Seq<(u64, usize)>, key: u64) -> (p: int)
    requires
        sorted_desc(s),
    ensures
        0 <= p <= s.len(),
        forall|k: int| 0 <= k < p ==> (#[trigger] s[k]).0 >= key,
        p < s.len() ==> s[p].0 < key,
    decreases s.len(),
{
    if s.len() == 0 || s[0].0 < key {
        0
    } else {
        let tail = s.skip(1);
        assert(forall|a: int, b: int|
            0 <= a < b < tail.len() ==> (#[trigger] tail[a]).0 >= (#[trigger] tail[b]).0);
        let q = first_smaller_pos(tail, key);
        assert forall|k: int| 0 <= k < q + 1 implies (#[trigger] s[k]).0 >= key by {
            if k > 0 {
                assert(tail[k - 1].0 >= key);
            }
        }
        assert(q + 1 < s.len() ==> s[q + 1].0 < key);
        q + 1
    }
}

/// The descending insertion sort is sorted.
pub proof fn lemma_sort_desc_sorted(s: Seq<(u64, usize)>)
    ensures
        sorted_desc(sort_desc(s)),
        sort_desc(s).len() == s.len(),
    decreases s.len(),
{
    if s.len() > 0 {
        lemma_sort_desc_sorted(s.drop_last());
        let base = sort_desc(s.drop_last());
        let x = s.last();
        let p = first_smaller_pos(base, x.0);
        lemma_insert_desc_at(base, x, p);
    }
}

/// The first position whose key is smaller than the probe.
#[verifier::loop_isolation(false)]
fn find_insert_pos(s: &Vec<(u64, usize)>, key: u64) -> (p: usize)
    ensures
        p <= s@.len(),
        forall|k: int| 0 <= k < p ==> (#[trigger] s@[k]).0 >= key,
        p < s@.len() ==> s@[p as int].0 < key,
{
    let mut i: usize = 0;
    while i < s.len()
        invariant
            i <= s@.len(),
            forall|k: int| 0 <= k < i ==> (#[trigger] s@[k]).0 >= key,
        decreases s@.len() - i,
    {
        if s[i].0 < key {
            return i;
        }
        i = i + 1;
    }
    i
}

/// Sorts keyed positions by descending key, stably.
#[verifier::loop_isolation(false)]
fn sort_pairs_desc(v: &Vec<(u64, usize)>) -> (r: Vec<(u64, usize)>)
    ensures
        r@ == sort_desc(v@),
        sorted_desc(r@),
{
    let mut out: Vec<(u64, usize)> = Vec::new();
    let mut i: usize = 0;
    proof {
        assert(v@.take(0) =~= Seq::<(u64, usize)>::empty());
    }
    while i < v.len()
        invariant
            i <= v@.len(),
            out@ == sort_desc(v@.take(i as int)),
            sorted_desc(out@),
        decreases v@.len() - i,
    {
        let x = v[i];
        let p = find_insert_pos(&out, x.0);
        let ghost prev = out@;
        out.insert(p, x);
        proof {
            lemma_insert_desc_at(prev, x, p as int);
            assert(out@ =~= prev.subrange(0, p as int) + seq![x] + prev.skip(p as int));
            assert(v@.take(i + 1) =~= v@.take(i as int).push(x));
            assert(v@.take(i + 1).drop_last() =~= v@.take(i as int));
            assert(sort_desc(v@.take(i + 1)) == insert_desc(prev, x));
        }
        i = i + 1;
    }
    proof {
        assert(v@.take(v@.len() as int) =~= v@);
    }
    out
}

/// The recency key of every memory row, paired with its position.
pub open spec fn recency_pairs(ms: Seq<MemoryRow>) -> Seq<(u64, usize)> {
    Seq::new(ms.len(), |i: int| (ms[i].updated_at, i as usize))
}

/// Whether a chunk row joins a memory row and the pair matches the
/// folded query: the chunk belongs to the memory, and the query occurs
/// in the folded memory content or the folded chunk content.
pub open spec fn chunk_matches(m: MemoryRow, c: ChunkRow, q: Seq<char>) -> bool {
    c.memory_id@ == m.id@ && (seq_contains_sub(lower_of(m.content@), q) || seq_contains_sub(
        lower_of(c.content@),
        q,
    ))
}

/// The matched (memory position, chunk position) pairs of one memory,
/// over the first `n` chunk rows in table order.
pub open spec fn memory_chunk_pairs(
    ms: Seq<MemoryRow>,
    cs: Seq<ChunkRow>,
    mi: usize,
    q: Seq<char>,
    n: int,
) -> Seq<(usize, usize)>
    decreases n,
{
    if n <= 0 {
        Seq::empty()
    } else {
        memory_chunk_pairs(ms, cs, mi, q, n - 1) + (if mi < ms.len() && chunk_matches(
            ms[mi as int],
            cs[n - 1],
            q,
        ) {
            seq![(mi, (n - 1) as usize)]
        } else {
            Seq::empty()
        })
    }
}

/// The joined rows of a query, one run of chunk pairs per memory in the
/// given order.
pub open spec fn query_rows(
    ms: Seq<MemoryRow>,
    cs: Seq<ChunkRow>,
    order: Seq<(u64, usize)>,
    q: Seq<char>,
) -> Seq<(usize, usize)>
    decreases order.len(),
{
    if order.len() == 0 {
        Seq::empty()
    } else {
        query_rows(ms, cs, order.drop_last(), q) + memory_chunk_pairs(
            ms,
            cs,
            order.last().1,
            q,
            cs.len() as int,
        )
    }
}

/// What a query selects: the joined rows in most-recently-updated
/// order, capped at the limit.
pub open spec fn query_selection(
    ms: Seq<MemoryRow>,
    cs: Seq<ChunkRow>,
    q: Seq<char>,
    limit: int,
) -> Seq<(usize, usize)> {
    let all = query_rows(ms, cs, sort_desc(recency_pairs(ms)), q);
    all.take(min(limit, all.len() as int))
}

/// The answer text: the selected chunk contents joined by blank lines.
pub open spec fn answer_of(cs: Seq<ChunkRow>, pairs: Seq<(usize, usize)>) -> Seq<char>
    decreases pairs.len(),
{
    if pairs.len() == 0 {
        Seq::empty()
    } else if pairs.len() == 1 {
        cs[pairs[0].1 as int].content@
    } else {
        answer_of(cs, pairs.drop_last()) + "\n\n"@ + cs[pairs.last().1 as int].content@
    }
}

/// The fields a citation carries for a selected memory and chunk.
pub open spec fn citation_matches(c: Citation, m: MemoryRow, ch: ChunkRow) -> bool {
    &&& c.id@ == m.id@
    &&& c.title == m.title
    &&& c.content@ == ch.content@
    &&& c.relevance_score == PLACEHOLDER_SCORE
    &&& c.source == m.source
}

/// The name of the first tag row carrying the id, or empty when none
/// does.
pub open spec fn tag_name_by_id(ts: Seq<TagRow>, tid: Seq<char>) -> Seq<char>
    decreases ts.len(),
{
    if ts.len() == 0 {
        Seq::empty()
    } else if ts[0].id@ == tid {
        ts[0].name@
    } else {
        tag_name_by_id(ts.skip(1), tid)
    }
}

/// The tag names of a memory, resolved through its links in table
/// order.
pub open spec fn tag_names_of(ts: Seq<TagRow>, ls: Seq<MemoryTagRow>, mid: Seq<char>) -> Seq<
    Seq<char>,
>
    decreases ls.len(),
{
    if ls.len() == 0 {
        Seq::empty()
    } else {
        tag_names_of(ts, ls.drop_last(), mid) + (if ls.last().memory_id@ == mid {
            seq![tag_name_by_id(ts, ls.last().tag_id@)]
        } else {
            Seq::empty()
        })
    }
}

/// Whether a memory carries any of the given tag names.
pub open spec fn mem_tag_match(
    ts: Seq<TagRow>,
    ls: Seq<MemoryTagRow>,
    m: MemoryRow,
    names: Seq<Seq<char>>,
) -> bool {
    exists|t: int| 0 <= t < names.len() && memory_has_tag(ts, ls, m.id@, #[trigger] names[t])
}

/// The positions of the memories that satisfy the predicate, walked in
/// the given order.
pub open spec fn filter_order(
    ms: Seq<MemoryRow>,
    order: Seq<(u64, usize)>,
    pred: spec_fn(MemoryRow) -> bool,
) -> Seq<usize>
    decreases order.len(),
{
    if order.len() == 0 {
        Seq::empty()
    } else {
        filter_order(ms, order.drop_last(), pred) + (if order.last().1 < ms.len() && pred(
            ms[order.last().1 as int],
        ) {
            seq![order.last().1]
        } else {
            Seq::empty()
        })
    }
}

/// What a search selects: the matching memories in most-recently-updated
/// order, capped at the limit.
pub open spec fn search_selection(
    ms: Seq<MemoryRow>,
    pred: spec_fn(MemoryRow) -> bool,
    limit: int,
) -> Seq<usize> {
    let all = filter_order(ms, sort_desc(recency_pairs(ms)), pred);
    all.take(min(limit, all.len() as int))
}

/// The fields a returned entry carries for a stored memory row.
pub open spec fn entry_matches(
    e: MemoryEntry,
    m: MemoryRow,
    ts: Seq<TagRow>,
    ls: Seq<MemoryTagRow>,
) -> bool {
    &&& match e.id {
        Some(s) => s@ == m.id@,
        None => false,
    }
    &&& e.content@ == m.content@
    &&& e.title == m.title
    &&& e.source == m.source
    &&& e.tags.deep_view() == tag_names_of(ts, ls, m.id@)
    &&& match e.created_at {
        Some(s) => s@ == rfc3339_of(m.created_at),
        None => false,
    }
    &&& match e.updated_at {
        Some(s) => s@ == rfc3339_of(m.updated_at),
        None => false,
    }
}

/// The first tag row carrying the id, scanning from the front.
#[verifier::loop_isolation(false)]
fn find_tag_by_id(ts: &Vec<TagRow>, tid: &str) -> (r: Option<usize>)
    ensures
        match r {
            Some(i) => i < ts@.len() && ts@[i as int].id@ == tid@ && (forall|k: int|
                0 <= k < i ==> (#[trigger] ts@[k]).id@ != tid@),
            None => !has_tag_id(ts@, tid@),
        },
{
    let mut i: usize = 0;
    while i < ts.len()
        invariant
            i <= ts@.len(),
            forall|k: int| 0 <= k < i ==> (#[trigger] ts@[k]).id@ != tid@,
        decreases ts@.len() - i,
    {
        if str_eq(ts[i].id.as_str(), tid) {
            return Some(i);
        }
        i = i + 1;
    }
    None
}

/// The first match resolves `tag_name_by_id`.
pub proof fn lemma_tag_name_by_id_first(ts: Seq<TagRow>, tid: Seq<char>, i: int)
    requires
        0 <= i < ts.len(),
        ts[i].id@ == tid,
        forall|k: int| 0 <= k < i ==> (#[trigger] ts[k]).id@ != tid,
    ensures
        tag_name_by_id(ts, tid) == ts[i].name@,
    decreases ts.len(),
{
    if i > 0 {
        assert(forall|k: int| 0 <= k < i - 1 ==> (#[trigger] ts.skip(1)[k]).id@ != tid);
        lemma_tag_name_by_id_first(ts.skip(1), tid, i - 1);
        assert(ts.skip(1)[i - 1] == ts[i]);
    }
}

/// A tag row carrying the name, if any.
#[verifier::loop_isolation(false)]
fn find_tag_by_name(ts: &Vec<TagRow>, name: &str) -> (r: Option<usize>)
    ensures
        match r {
            Some(i) => i < ts@.len() && ts@[i as int].name@ == name@,
            None => !has_tag_named(ts@, name@),
        },
{
    let mut i: usize = 0;
    while i < ts.len()
        invariant
            i <= ts@.len(),
            forall|k: int| 0 <= k < i ==> (#[trigger] ts@[k]).name@ != name@,
        decreases ts@.len() - i,
    {
        if str_eq(ts[i].name.as_str(), name) {
            return Some(i);
        }
        i = i + 1;
    }
    None
}

/// Copies an optional text by value.
fn clone_opt_string(s: &Option<String>) -> (r: Option<String>)
    ensures
        r == *s,
{
    match s {
        Some(x) => Some(x.clone()),
        None => None,
    }
}

impl MemoryManager {
    /// A manager over a freshly initialised, empty store.
    pub fn new() -> (r: MemoryManager)
        ensures
            r.store.wf(),
            r.store.memories@.len() == 0,
            r.store.chunks@.len() == 0,
            r.store.tags@.len() == 0,
            r.store.memory_tags@.len() == 0,
            r.store.citations@.len() == 0,
            r.store.embeddings@.len() == 0,
            r.store.vaults@.len() == 0,
    {
        MemoryManager { store: Store::new() }
    }

    /// Resolves a tag name to its row id, inserting a fresh row exactly
    /// when no row carries the name: the insert-or-get idiom, so a name
    /// is never duplicated.
    fn ensure_tag(&mut self, name: &str, now: u64) -> (r: Result<String, MemoryError>)
        requires
            old(self).store.wf(),
        ensures
            final(self).store.wf(),
            final(self).store.vaults == old(self).store.vaults,
            final(self).store.memories == old(self).store.memories,
            final(self).store.chunks == old(self).store.chunks,
            final(self).store.memory_tags == old(self).store.memory_tags,
            final(self).store.citations == old(self).store.citations,
            final(self).store.embeddings == old(self).store.embeddings,
            rows_prefix(old(self).store.tags@, final(self).store.tags@),
            r matches Ok(tid) ==> has_tag_named(final(self).store.tags@, name@) && tid@
                == tag_id_of(final(self).store.tags@, name@),
            has_tag_named(old(self).store.tags@, name@) ==> r is Ok && final(self).store.tags
                == old(self).store.tags,
            !has_tag_named(old(self).store.tags@, name@) && r is Ok ==> final(self).store.tags@.len()
                == old(self).store.tags@.len() + 1
                && final(self).store.tags@.last().name@ == name@,
            r is Err ==> final(self).store.tags == old(self).store.tags && r == Err::<
                String,
                MemoryError,
            >(MemoryError::Persistence),
    {
        let tags_len = self.store.tags.len();
        let mut i: usize = 0;
        while i < tags_len
            invariant
                tags_len == self.store.tags@.len(),
                i <= tags_len,
                forall|k: int| 0 <= k < i ==> (#[trigger] self.store.tags@[k]).name@ != name@,
                self.store.wf(),
        decreases tags_len - i,
        {
            if str_eq(self.store.tags[i].name.as_str(), name) {
                let tid = self.store.tags[i].id.clone();
                proof {
                    assert(has_tag_named(self.store.tags@, name@));
                    lemma_tag_id_of_row(self.store.tags@, i as int);
                }
                return Ok(tid);
            }
            i = i + 1;
        }
        let tid = fresh_uuid();
        if tag_id_taken(&self.store.tags, tid.as_str()) {
            return Err(MemoryError::Persistence);
        }
        let ghost prev = self.store.tags@;
        let row = TagRow { id: tid.clone(), name: name.to_owned(), color: None, created_at: now };
        self.store.tags.push(row);
        proof {
            assert(!has_tag_named(prev, name@));
            assert(self.store.tags@.last().name@ == name@);
            assert(self.store.tags@.last().id@ == tid@);
            assert(self.store.tags_unique());
            assert forall|k: int|
                0 <= k < self.store.memory_tags@.len() implies has_memory(
                self.store.memories@,
                (#[trigger] self.store.memory_tags@[k]).memory_id@,
            ) && has_tag_id(self.store.tags@, self.store.memory_tags@[k].tag_id@) by {
                assert(has_tag_id(prev, self.store.memory_tags@[k].tag_id@));
                let j = choose|j: int|
                    0 <= j < prev.len() && (#[trigger] prev[j]).id@
                        == self.store.memory_tags@[k].tag_id@;
                assert(self.store.tags@[j].id@ == self.store.memory_tags@[k].tag_id@);
            }
            assert(rows_prefix(prev, self.store.tags@));
            lemma_owned_grow(&old(self).store, &self.store);
            assert(self.store.wf());
            lemma_tag_id_of_row(self.store.tags@, self.store.tags@.len() - 1);
        }
        Ok(tid)
    }

    /// Ingests a memory: assigns an id if the entry carries none,
    /// inserts the memory row, resolves or creates each tag and links
    /// it, splits the content into chunks of fifty tokens and inserts
    /// one chunk row per chunk. Fails only when an id collides with a
    /// present row, and then changes no table but possibly the tags.
    #[verifier::loop_isolation(false)]
    pub fn add_memory(&mut self, entry: MemoryEntry, now: u64) -> (r: Result<String, MemoryError>)
        requires
            old(self).store.wf(),
            now <= MAX_TIMESTAMP_SECS,
            entry.content@.len() <= MAX_CONTENT_LEN,
        ensures
            final(self).store.wf(),
            final(self).store.vaults == old(self).store.vaults,
            final(self).store.citations == old(self).store.citations,
            final(self).store.embeddings == old(self).store.embeddings,
            rows_prefix(old(self).store.tags@, final(self).store.tags@),
            r matches Err(e) ==> e == MemoryError::Persistence
                && final(self).store.memories == old(self).store.memories
                && final(self).store.chunks == old(self).store.chunks
                && final(self).store.memory_tags == old(self).store.memory_tags,
            entry.id matches Some(eid) && has_memory(old(self).store.memories@, eid@) ==> r is Err,
            entry.id matches Some(eid) && !has_memory(old(self).store.memories@, eid@) && (forall|
                t: int,
            |
                0 <= t < entry.tags@.len() ==> has_tag_named(
                    old(self).store.tags@,
                    (#[trigger] entry.tags@[t])@,
                )) && words_of(entry.content@).len() == 0 ==> r is Ok,
            r matches Ok(rid) ==> !has_memory(old(self).store.memories@, rid@)
                && final(self).store.memories@.drop_last() == old(self).store.memories@ && ({
                let m = final(self).store.memories@.last();
                &&& m.id@ == rid@
                &&& m.vault_id@ == "default"@
                &&& m.title == entry.title
                &&& m.content == entry.content
                &&& m.source == entry.source
                &&& m.created_at == now
                &&& m.updated_at == now
            }),
            r matches Ok(rid) ==> (entry.id matches Some(eid) ==> rid@ == eid@),
            r matches Ok(rid) ==> ({
                let oldc = old(self).store.chunks@;
                let newc = final(self).store.chunks@;
                let ws = words_of(entry.content@);
                &&& rows_prefix(oldc, newc)
                &&& newc.len() == oldc.len() + chunk_count(ws.len() as int)
                &&& forall|k: int|
                    0 <= k < chunk_count(ws.len() as int) ==> ({
                        let c = #[trigger] newc[oldc.len() + k];
                        &&& c.memory_id@ == rid@
                        &&& words_of(c.content@) == ws.subrange(
                            50 * k,
                            min(50 * k + 50, ws.len() as int),
                        )
                        &&& c.start_pos == 100 * k
                        &&& c.end_pos == 100 * (k + 1)
                        &&& c.created_at == now
                    })
            }),
            r matches Ok(rid) ==> rows_prefix(
                old(self).store.memory_tags@,
                final(self).store.memory_tags@,
            ) && (forall|i: int|
                old(self).store.memory_tags@.len() <= i < final(self).store.memory_tags@.len()
                    ==> (#[trigger] final(self).store.memory_tags@[i]).memory_id@ == rid@) && (
            forall|t: int|
                0 <= t < entry.tags@.len() ==> memory_has_tag(
                    final(self).store.tags@,
                    final(self).store.memory_tags@,
                    rid@,
                    (#[trigger] entry.tags@[t])@,
                )),
    {
        let ghost all_tags_present = forall|t: int|
            0 <= t < entry.tags@.len() ==> has_tag_named(
                old(self).store.tags@,
                (#[trigger] entry.tags@[t])@,
            );
        let ghost no_tokens = words_of(entry.content@).len() == 0;
        // Assign or keep the memory id, and refuse a colliding one.
        let id: String = match &entry.id {
            Some(eid) => eid.clone(),
            None => fresh_uuid(),
        };
        match find_memory(&self.store.memories, id.as_str()) {
            Some(w) => {
                proof {
                    assert(self.store.memories@[w as int].id@ == id@);
                    assert(has_memory(self.store.memories@, id@));
                }
                return Err(MemoryError::Persistence);
            },
            None => {},
        }
        // Resolve or create every tag before any row is inserted.
        let mut tag_ids: Vec<String> = Vec::new();
        let mut t: usize = 0;
        while t < entry.tags.len()
            invariant
                old(self).store.wf(),
                t <= entry.tags@.len(),
                tag_ids.deep_view().len() == t,
                self.store.wf(),
                self.store.vaults == old(self).store.vaults,
                self.store.memories == old(self).store.memories,
                self.store.chunks == old(self).store.chunks,
                self.store.memory_tags == old(self).store.memory_tags,
                self.store.citations == old(self).store.citations,
                self.store.embeddings == old(self).store.embeddings,
                rows_prefix(old(self).store.tags@, self.store.tags@),
                all_tags_present ==> self.store.tags == old(self).store.tags,
                forall|u: int|
                    0 <= u < t ==> has_tag_named(self.store.tags@, (#[trigger] entry.tags@[u])@)
                        && tag_ids.deep_view()[u] == tag_id_of(
                        self.store.tags@,
                        entry.tags@[u]@,
                    ),
            decreases entry.tags@.len() - t,
        {
            let ghost tags_before = self.store.tags@;
            let tid = match self.ensure_tag(entry.tags[t].as_str(), now) {
                Ok(x) => x,
                Err(e) => {
                    proof {
                        if all_tags_present {
                            assert(has_tag_named(tags_before, entry.tags@[t as int]@));
                            assert(false);
                        }
                    }
                    return Err(e);
                },
            };
            proof {
                assert forall|u: int| 0 <= u < t implies has_tag_named(
                    self.store.tags@,
                    (#[trigger] entry.tags@[u])@,
                ) && tag_ids.deep_view()[u] == tag_id_of(self.store.tags@, entry.tags@[u]@) by {
                    lemma_tag_id_stable(tags_before, self.store.tags@, entry.tags@[u]@);
                }
            }
            tag_ids.push(tid);
            proof {
                assert(tag_ids.deep_view().len() == t + 1);
                assert(tag_ids.deep_view()[t as int] == tag_id_of(
                    self.store.tags@,
                    entry.tags@[t as int]@,
                ));
            }
            t = t + 1;
        }
        // Split the content and draw a fresh id for every chunk.
        let chunk_texts = create_chunks(entry.content.as_str());
        proof {
            crate::text::lemma_words_good(entry.content@);
            assert(chunk_count(words_of(entry.content@).len() as int) <= words_of(
                entry.content@,
            ).len() + 49) by (nonlinear_arith);
        }
        let mut chunk_ids: Vec<String> = Vec::new();
        let mut c: usize = 0;
        let n_chunks = chunk_texts.len();
        while c < n_chunks
            invariant
                c <= n_chunks,
                n_chunks == chunk_texts@.len(),
                chunk_ids.deep_view().len() == c,
                forall|u: int|
                    0 <= u < c ==> !has_chunk(self.store.chunks@, #[trigger] chunk_ids.deep_view()[u]),
                forall|a: int, b: int|
                    0 <= a < b < c ==> chunk_ids.deep_view()[a] != chunk_ids.deep_view()[b],
            decreases n_chunks - c,
        {
            let cid = fresh_uuid();
            if chunk_id_taken(&self.store.chunks, cid.as_str()) || string_in(&chunk_ids, cid.as_str()) {
                proof {
                    if no_tokens {
                        assert(chunk_count(0) == 0);
                        assert(n_chunks == 0);
                        assert(false);
                    }
                }
                return Err(MemoryError::Persistence);
            }
            let ghost prev_ids = chunk_ids.deep_view();
            chunk_ids.push(cid);
            proof {
                assert(chunk_ids.deep_view() =~= prev_ids.push(cid@));
            }
            c = c + 1;
        }
        // Insert the memory row.
        let ghost pre_push = self.store;
        let row = MemoryRow {
            id: id.clone(),
            vault_id: "default".to_owned(),
            title: entry.title,
            content: entry.content,
            source: entry.source,
            created_at: now,
            updated_at: now,
        };
        self.store.memories.push(row);
        proof {
            assert(rows_prefix(pre_push.memories@, self.store.memories@));
            assert(self.store.memory_ids_unique());
            assert(self.store.tags_unique());
            assert(self.store.links_unique());
            assert(self.store.timestamps_ok());
            crate::store::lemma_chunks_owned_grow(&pre_push, &self.store);
            crate::store::lemma_links_owned_grow(&pre_push, &self.store);
            crate::store::lemma_citations_owned_grow(&pre_push, &self.store);
            assert(self.store.wf());
            assert(self.store.memories@[self.store.memories@.len() - 1].id@ == id@);
            assert(has_memory(self.store.memories@, id@));
        }
        let ghost post_mem = self.store;
        proof {
            assert forall|u: int| 0 <= u < tag_ids.deep_view().len() implies has_tag_id(
                self.store.tags@,
                #[trigger] tag_ids.deep_view()[u],
            ) by {
                lemma_tag_id_present(self.store.tags@, entry.tags@[u]@);
            }
        }
        // Link the memory to its tags; a repeated tag links once.
        let mut t: usize = 0;
        while t < tag_ids.len()
            invariant
                t <= tag_ids.deep_view().len(),
                self.store.wf(),
                self.store.vaults == post_mem.vaults,
                self.store.memories == post_mem.memories,
                self.store.chunks == post_mem.chunks,
                self.store.tags == post_mem.tags,
                self.store.citations == post_mem.citations,
                self.store.embeddings == post_mem.embeddings,
                has_memory(self.store.memories@, id@),
                forall|u: int|
                    0 <= u < tag_ids.deep_view().len() ==> has_tag_id(
                        self.store.tags@,
                        #[trigger] tag_ids.deep_view()[u],
                    ),
                rows_prefix(post_mem.memory_tags@, self.store.memory_tags@),
                forall|i: int|
                    post_mem.memory_tags@.len() <= i < self.store.memory_tags@.len() ==> (
                    #[trigger] self.store.memory_tags@[i]).memory_id@ == id@,
                forall|u: int|
                    0 <= u < t ==> has_link(
                        self.store.memory_tags@,
                        id@,
                        #[trigger] tag_ids.deep_view()[u],
                    ),
            decreases tag_ids.deep_view().len() - t,
        {
            if !link_present(&self.store.memory_tags, id.as_str(), tag_ids[t].as_str()) {
                let ghost pre_link = self.store;
                let link = MemoryTagRow { memory_id: id.clone(), tag_id: tag_ids[t].clone() };
                self.store.memory_tags.push(link);
                proof {
                    let last = self.store.memory_tags@.len() - 1;
                    assert(self.store.memory_tags@[last].memory_id@ == id@);
                    assert(self.store.memory_tags@[last].tag_id@ == tag_ids.deep_view()[t as int]);
                    assert forall|u: int| 0 <= u < t implies has_link(
                        self.store.memory_tags@,
                        id@,
                        #[trigger] tag_ids.deep_view()[u],
                    ) by {
                        let w = choose|w: int|
                            0 <= w < pre_link.memory_tags@.len() && (
                            #[trigger] pre_link.memory_tags@[w]).memory_id@ == id@
                                && pre_link.memory_tags@[w].tag_id@ == tag_ids.deep_view()[u];
                        assert(self.store.memory_tags@[w].memory_id@ == id@
                            && self.store.memory_tags@[w].tag_id@ == tag_ids.deep_view()[u]);
                    }
                    assert(self.store.links_unique());
                    assert forall|i: int| 0 <= i < self.store.memory_tags@.len() implies has_memory(
                        self.store.memories@,
                        (#[trigger] self.store.memory_tags@[i]).memory_id@,
                    ) && has_tag_id(self.store.tags@, self.store.memory_tags@[i].tag_id@) by {
                        if i < pre_link.memory_tags@.len() {
                            assert(pre_link.links_owned());
                            assert(has_memory(
                                pre_link.memories@,
                                pre_link.memory_tags@[i].memory_id@,
                            ));
                        } else {
                            let ti = t as int;
                            assert(self.store.memory_tags@[i].tag_id@ == tag_ids.deep_view()[ti]);
                        }
                    }
                    crate::store::lemma_chunks_owned_grow(&pre_link, &self.store);
                    crate::store::lemma_citations_owned_grow(&pre_link, &self.store);
                    assert(self.store.wf());
                }
            }
            proof {
                assert(has_link(self.store.memory_tags@, id@, tag_ids.deep_view()[t as int]));
            }
            t = t + 1;
        }
        let ghost post_links = self.store;
        // Insert one chunk row per chunk.
        let ghost ws = words_of(entry.content@);
        let ghost base = post_links.chunks@.len() as int;
        let mut k: usize = 0;
        while k < n_chunks
            invariant
                k <= n_chunks,
                self.store.wf(),
                self.store.vaults == post_links.vaults,
                self.store.memories == post_links.memories,
                self.store.memory_tags == post_links.memory_tags,
                self.store.tags == post_links.tags,
                self.store.citations == post_links.citations,
                self.store.embeddings == post_links.embeddings,
                rows_prefix(post_links.chunks@, self.store.chunks@),
                self.store.chunks@.len() == base + k,
                forall|u: int|
                    0 <= u < k ==> (#[trigger] self.store.chunks@[base + u]).id@
                        == chunk_ids.deep_view()[u],
                forall|u: int|
                    0 <= u < k ==> added_chunk_ok(
                        #[trigger] self.store.chunks@[base + u],
                        chunk_ids.deep_view()[u],
                        id@,
                        chunk_texts.deep_view()[u],
                        u,
                        now,
                    ),
            decreases n_chunks - k,
        {
            let ghost pre_chunk = self.store;
            let crow = ChunkRow {
                id: chunk_ids[k].clone(),
                memory_id: id.clone(),
                content: chunk_texts[k].clone(),
                start_pos: (k as u64) * 100,
                end_pos: (k as u64) * 100 + 100,
                created_at: now,
            };
            self.store.chunks.push(crow);
            proof {
                assert(chunk_ids.deep_view()[k as int] == chunk_ids@[k as int]@);
                assert(chunk_texts.deep_view()[k as int] == chunk_texts@[k as int]@);
                assert(self.store.chunks@[base + k] == self.store.chunks@.last());
                assert forall|a: int, b: int|
                    0 <= a < b < self.store.chunks@.len() implies (
                #[trigger] self.store.chunks@[a]).id@ != (#[trigger] self.store.chunks@[b]).id@ by {
                    if b < pre_chunk.chunks@.len() {
                        assert(pre_chunk.chunk_ids_unique());
                        assert(pre_chunk.chunks@[a].id@ != pre_chunk.chunks@[b].id@);
                    } else {
                        assert(self.store.chunks@[b].id@ == chunk_ids.deep_view()[k as int]);
                        if a >= base {
                            assert(pre_chunk.chunks@[base + (a - base)].id@
                                == chunk_ids.deep_view()[a - base]);
                            assert(self.store.chunks@[a].id@ == chunk_ids.deep_view()[a - base]);
                        } else {
                            assert(pre_chunk.chunks@[a] == post_links.chunks@[a]);
                            assert(!has_chunk(post_links.chunks@, chunk_ids.deep_view()[k as int]));
                        }
                    }
                }
                assert(self.store.chunk_ids_unique());
                assert forall|i: int| 0 <= i < self.store.chunks@.len() implies has_memory(
                    self.store.memories@,
                    (#[trigger] self.store.chunks@[i]).memory_id@,
                ) by {
                    if i < pre_chunk.chunks@.len() {
                        assert(pre_chunk.chunks_owned());
                        assert(has_memory(pre_chunk.memories@, pre_chunk.chunks@[i].memory_id@));
                    } else {
                        assert(self.store.chunks@[i].memory_id@ == id@);
                    }
                }
                crate::store::lemma_citations_owned_grow(&pre_chunk, &self.store);
                crate::store::lemma_links_owned_grow(&pre_chunk, &self.store);
                assert(self.store.wf());
            }
            k = k + 1;
        }
        proof {
            assert(self.store.memories@.drop_last() =~= old(self).store.memories@);
            assert forall|u: int| 0 <= u < entry.tags@.len() implies memory_has_tag(
                self.store.tags@,
                self.store.memory_tags@,
                id@,
                (#[trigger] entry.tags@[u])@,
            ) by {
                assert(tag_ids.deep_view()[u] == tag_id_of(self.store.tags@, entry.tags@[u]@));
                assert(has_link(self.store.memory_tags@, id@, tag_ids.deep_view()[u]));
            }
            assert forall|u: int| 0 <= u < chunk_count(ws.len() as int) implies ({
                let c = #[trigger] self.store.chunks@[old(self).store.chunks@.len() + u];
                &&& c.memory_id@ == id@
                &&& words_of(c.content@) == ws.subrange(50 * u, min(50 * u + 50, ws.len() as int))
                &&& c.start_pos == 100 * u
                &&& c.end_pos == 100 * (u + 1)
                &&& c.created_at == now
            }) by {
                assert(added_chunk_ok(
                    self.store.chunks@[base + u],
                    chunk_ids.deep_view()[u],
                    id@,
                    chunk_texts.deep_view()[u],
                    u,
                    now,
                ));
                assert(words_of(chunk_texts.deep_view()[u]) == ws.subrange(
                    50 * u,
                    min(50 * u + 50, ws.len() as int),
                ));
            }
        }
        Ok(id)
    }

    /// Deletes a memory and cascades: its citations, chunks and tag
    /// links go with it, in that order; shared tag rows are retained.
    /// Rejects an id that no memory row carries, changing nothing.
    pub fn delete_memory(&mut self, id: &String) -> (r: Result<(), MemoryError>)
        requires
            old(self).store.wf(),
        ensures
            final(self).store.wf(),
            final(self).store.vaults == old(self).store.vaults,
            final(self).store.tags == old(self).store.tags,
            final(self).store.embeddings == old(self).store.embeddings,
            !has_memory(old(self).store.memories@, id@) ==> r == Err::<(), MemoryError>(
                MemoryError::NotFound,
            ) && final(self).store == old(self).store,
            has_memory(old(self).store.memories@, id@) ==> r == Ok::<(), MemoryError>(())
                && final(self).store.memories@ == old(self).store.memories@.filter(
                |m: MemoryRow| m.id@ != id@,
            ) && final(self).store.chunks@ == old(self).store.chunks@.filter(
                |c: ChunkRow| c.memory_id@ != id@,
            ) && final(self).store.memory_tags@ == old(self).store.memory_tags@.filter(
                |l: MemoryTagRow| l.memory_id@ != id@,
            ) && final(self).store.citations@ == old(self).store.citations@.filter(
                |c: CitationRow| c.memory_id@ != id@,
            ),
            !has_memory(final(self).store.memories@, id@),
            forall|i: int|
                0 <= i < final(self).store.chunks@.len() ==> (
                #[trigger] final(self).store.chunks@[i]).memory_id@ != id@,
            forall|i: int|
                0 <= i < final(self).store.memory_tags@.len() ==> (
                #[trigger] final(self).store.memory_tags@[i]).memory_id@ != id@,
            forall|i: int|
                0 <= i < final(self).store.citations@.len() ==> (
                #[trigger] final(self).store.citations@[i]).memory_id@ != id@,
    {
        if find_memory(&self.store.memories, id.as_str()).is_none() {
            proof {
                assert forall|i: int| 0 <= i < self.store.chunks@.len() implies (
                #[trigger] self.store.chunks@[i]).memory_id@ != id@ by {
                    assert(has_memory(self.store.memories@, self.store.chunks@[i].memory_id@));
                }
                assert forall|i: int| 0 <= i < self.store.memory_tags@.len() implies (
                #[trigger] self.store.memory_tags@[i]).memory_id@ != id@ by {
                    assert(has_memory(self.store.memories@, self.store.memory_tags@[i].memory_id@));
                }
                assert forall|i: int| 0 <= i < self.store.citations@.len() implies (
                #[trigger] self.store.citations@[i]).memory_id@ != id@ by {
                    assert(has_memory(self.store.memories@, self.store.citations@[i].memory_id@));
                }
            }
            return Err(MemoryError::NotFound);
        }
        let ghost pre = self.store;
        let ghost predm = |m: MemoryRow| m.id@ != id@;
        let ghost predc = |c: ChunkRow| c.memory_id@ != id@;
        let ghost predl = |l: MemoryTagRow| l.memory_id@ != id@;
        let ghost predcit = |c: CitationRow| c.memory_id@ != id@;
        let new_citations = filter_citations_not(&self.store.citations, id.as_str());
        let new_chunks = filter_chunks_not(&self.store.chunks, id.as_str());
        let new_links = filter_links_not(&self.store.memory_tags, id.as_str());
        let new_memories = filter_memories_not(&self.store.memories, id.as_str());
        self.store.citations = new_citations;
        self.store.chunks = new_chunks;
        self.store.memory_tags = new_links;
        self.store.memories = new_memories;
        proof {
            broadcast use vstd::seq_lib::group_filter_ensures;

            assert forall|i: int| 0 <= i < self.store.chunks@.len() implies (
            #[trigger] self.store.chunks@[i]).memory_id@ != id@ by {
                pre.chunks@.lemma_filter_pred(predc, i);
            }
            assert forall|i: int| 0 <= i < self.store.memory_tags@.len() implies (
            #[trigger] self.store.memory_tags@[i]).memory_id@ != id@ by {
                pre.memory_tags@.lemma_filter_pred(predl, i);
            }
            assert forall|i: int| 0 <= i < self.store.citations@.len() implies (
            #[trigger] self.store.citations@[i]).memory_id@ != id@ by {
                pre.citations@.lemma_filter_pred(predcit, i);
            }
            assert forall|i: int| 0 <= i < self.store.memories@.len() implies (
            #[trigger] self.store.memories@[i]).id@ != id@ by {
                pre.memories@.lemma_filter_pred(predm, i);
            }
            assert(!has_memory(self.store.memories@, id@));
            assert forall|i: int| 0 <= i < self.store.chunks@.len() implies has_memory(
                self.store.memories@,
                (#[trigger] self.store.chunks@[i]).memory_id@,
            ) by {
                let j = choose|j: int|
                    0 <= j < pre.chunks@.len() && #[trigger] self.store.chunks@[i]
                        == pre.chunks@[j];
                assert(has_memory(pre.memories@, pre.chunks@[j].memory_id@));
                let w = choose|w: int|
                    0 <= w < pre.memories@.len() && (#[trigger] pre.memories@[w]).id@
                        == pre.chunks@[j].memory_id@;
                assert(predm(pre.memories@[w]));
                pre.memories@.lemma_filter_contains(predm, w);
                let v = choose|v: int|
                    0 <= v < self.store.memories@.len() && self.store.memories@[v]
                        == pre.memories@[w];
                assert((#[trigger] self.store.memories@[v]).id@
                    == self.store.chunks@[i].memory_id@);
            }
            assert forall|i: int| 0 <= i < self.store.memory_tags@.len() implies has_memory(
                self.store.memories@,
                (#[trigger] self.store.memory_tags@[i]).memory_id@,
            ) && has_tag_id(self.store.tags@, self.store.memory_tags@[i].tag_id@) by {
                let j = choose|j: int|
                    0 <= j < pre.memory_tags@.len() && #[trigger] self.store.memory_tags@[i]
                        == pre.memory_tags@[j];
                assert(has_memory(pre.memories@, pre.memory_tags@[j].memory_id@));
                assert(has_tag_id(pre.tags@, pre.memory_tags@[j].tag_id@));
                let w = choose|w: int|
                    0 <= w < pre.memories@.len() && (#[trigger] pre.memories@[w]).id@
                        == pre.memory_tags@[j].memory_id@;
                assert(predm(pre.memories@[w]));
                pre.memories@.lemma_filter_contains(predm, w);
                let v = choose|v: int|
                    0 <= v < self.store.memories@.len() && self.store.memories@[v]
                        == pre.memories@[w];
                assert((#[trigger] self.store.memories@[v]).id@
                    == self.store.memory_tags@[i].memory_id@);
            }
            assert forall|i: int| 0 <= i < self.store.citations@.len() implies has_memory(
                self.store.memories@,
                (#[trigger] self.store.citations@[i]).memory_id@,
            ) && (exists|j: int|
                0 <= j < self.store.chunks@.len() && (#[trigger] self.store.chunks@[j]).id@
                    == self.store.citations@[i].chunk_id@ && self.store.chunks@[j].memory_id@
                    == self.store.citations@[i].memory_id@) by {
                let j = choose|j: int|
                    0 <= j < pre.citations@.len() && #[trigger] self.store.citations@[i]
                        == pre.citations@[j];
                assert(has_memory(pre.memories@, pre.citations@[j].memory_id@));
                let w = choose|w: int|
                    0 <= w < pre.memories@.len() && (#[trigger] pre.memories@[w]).id@
                        == pre.citations@[j].memory_id@;
                assert(predm(pre.memories@[w]));
                pre.memories@.lemma_filter_contains(predm, w);
                let v = choose|v: int|
                    0 <= v < self.store.memories@.len() && self.store.memories@[v]
                        == pre.memories@[w];
                assert((#[trigger] self.store.memories@[v]).id@
                    == self.store.citations@[i].memory_id@);
                let ch = choose|ch: int|
                    0 <= ch < pre.chunks@.len() && (#[trigger] pre.chunks@[ch]).id@
                        == pre.citations@[j].chunk_id@ && pre.chunks@[ch].memory_id@
                        == pre.citations@[j].memory_id@;
                assert(predc(pre.chunks@[ch]));
                pre.chunks@.lemma_filter_contains(predc, ch);
                let cv = choose|cv: int|
                    0 <= cv < self.store.chunks@.len() && self.store.chunks@[cv]
                        == pre.chunks@[ch];
                assert((#[trigger] self.store.chunks@[cv]).id@
                    == self.store.citations@[i].chunk_id@ && self.store.chunks@[cv].memory_id@
                    == self.store.citations@[i].memory_id@);
            }
            assert forall|i: int| 0 <= i < self.store.memories@.len() implies (
            #[trigger] self.store.memories@[i]).created_at <= MAX_TIMESTAMP_SECS
                && self.store.memories@[i].updated_at <= MAX_TIMESTAMP_SECS by {
                let j = choose|j: int|
                    0 <= j < pre.memories@.len() && #[trigger] self.store.memories@[i]
                        == pre.memories@[j];
            }
            assert(self.store.wf());
        }
        Ok(())
    }

    /// Answers a lexical query: joins memories with their chunks, keeps
    /// the rows whose folded memory or chunk content contains the folded
    /// query, orders them by most-recently-updated memory first, caps
    /// them at the limit (ten when absent), and concatenates the
    /// selected chunk contents into the answer. One citation per
    /// selected row when asked for, at the fixed placeholder score.
    #[verifier::loop_isolation(false)]
    pub fn query_memory(&self, request: &QueryRequest) -> (r: Result<QueryResult, MemoryError>)
        requires
            self.store.wf(),
        ensures
            r is Ok,
            r matches Ok(qr) ==> ({
                let q = lower_of(request.query@);
                let lim = match request.limit {
                    Some(l) => l as int,
                    None => 10int,
                };
                let pairs = query_selection(self.store.memories@, self.store.chunks@, q, lim);
                &&& qr.answer@ == answer_of(self.store.chunks@, pairs)
                &&& qr.processing_time_ms == 100
                &&& (request.include_citations ==> qr.citations@.len() == pairs.len() && (forall|
                    k: int,
                |
                    0 <= k < pairs.len() ==> citation_matches(
                        #[trigger] qr.citations@[k],
                        self.store.memories@[pairs[k].0 as int],
                        self.store.chunks@[pairs[k].1 as int],
                    )))
                &&& (!request.include_citations ==> qr.citations@.len() == 0)
                &&& qr.confidence == if request.include_citations && pairs.len() > 0 {
                    PLACEHOLDER_SCORE
                } else {
                    0u32
                }
            }),
    {
        let ghost ms = self.store.memories@;
        let ghost cs = self.store.chunks@;
        let lq = lowercase(request.query.as_str());
        let limit: usize = match request.limit {
            Some(l) => l,
            None => 10,
        };
        // Key every memory by recency.
        let mut rec: Vec<(u64, usize)> = Vec::new();
        let mut i: usize = 0;
        proof {
            assert(rec@ =~= recency_pairs(ms).take(0));
        }
        while i < self.store.memories.len()
            invariant
                i <= ms.len(),
                rec@ == recency_pairs(ms).take(i as int),
            decreases ms.len() - i,
        {
            rec.push((self.store.memories[i].updated_at, i));
            proof {
                assert(rec@ =~= recency_pairs(ms).take(i + 1));
            }
            i = i + 1;
        }
        proof {
            assert(recency_pairs(ms).take(ms.len() as int) =~= recency_pairs(ms));
        }
        let order = sort_pairs_desc(&rec);
        // Walk memories in recency order, their chunks in table order.
        let mut sel: Vec<(usize, usize)> = Vec::new();
        let mut oi: usize = 0;
        proof {
            assert(order@.take(0) =~= Seq::<(u64, usize)>::empty());
        }
        while oi < order.len()
            invariant
                oi <= order@.len(),
                sel@ == query_rows(ms, cs, order@.take(oi as int), lq@),
                forall|k: int|
                    0 <= k < sel@.len() ==> (#[trigger] sel@[k]).0 < ms.len() && sel@[k].1
                        < cs.len(),
            decreases order@.len() - oi,
        {
            let mi = order[oi].1;
            let ghost sel_before = sel@;
            if mi < self.store.memories.len() {
                let lm = lowercase(self.store.memories[mi].content.as_str());
                let mmatch = contains_sub(lm.as_str(), lq.as_str());
                let mut j: usize = 0;
                while j < self.store.chunks.len()
                    invariant
                        j <= cs.len(),
                        mi < ms.len(),
                        mmatch == seq_contains_sub(lower_of(ms[mi as int].content@), lq@),
                        sel@ == sel_before + memory_chunk_pairs(ms, cs, mi, lq@, j as int),
                        forall|k: int|
                            0 <= k < sel@.len() ==> (#[trigger] sel@[k]).0 < ms.len() && sel@[k].1
                                < cs.len(),
                    decreases cs.len() - j,
                {
                    let cmatch = if str_eq(
                        self.store.chunks[j].memory_id.as_str(),
                        self.store.memories[mi].id.as_str(),
                    ) {
                        if mmatch {
                            true
                        } else {
                            let lc = lowercase(self.store.chunks[j].content.as_str());
                            contains_sub(lc.as_str(), lq.as_str())
                        }
                    } else {
                        false
                    };
                    proof {
                        assert(cmatch == chunk_matches(ms[mi as int], cs[j as int], lq@));
                    }
                    if cmatch {
                        sel.push((mi, j));
                        proof {
                            assert(sel@ =~= sel_before + memory_chunk_pairs(
                                ms,
                                cs,
                                mi,
                                lq@,
                                j + 1,
                            ));
                        }
                    } else {
                        proof {
                            assert(sel@ =~= sel_before + memory_chunk_pairs(
                                ms,
                                cs,
                                mi,
                                lq@,
                                j + 1,
                            ));
                        }
                    }
                    j = j + 1;
                }
            } else {
                proof {
                    assert(memory_chunk_pairs(ms, cs, mi, lq@, cs.len() as int) =~= Seq::<(
                        usize,
                        usize,
                    )>::empty()) by {
                        lemma_chunk_pairs_oob(ms, cs, mi, lq@, cs.len() as int);
                    }
                    assert(sel@ =~= sel_before + memory_chunk_pairs(
                        ms,
                        cs,
                        mi,
                        lq@,
                        cs.len() as int,
                    ));
                }
            }
            proof {
                assert(order@.take(oi + 1).drop_last() =~= order@.take(oi as int));
                assert(order@.take(oi + 1).last() == order@[oi as int]);
                assert(sel@ == query_rows(ms, cs, order@.take(oi + 1), lq@));
            }
            oi = oi + 1;
        }
        proof {
            assert(order@.take(order@.len() as int) =~= order@);
        }
        // Cap at the limit.
        let ghost all = query_rows(ms, cs, sort_desc(recency_pairs(ms)), lq@);
        if sel.len() > limit {
            sel.truncate(limit);
        }
        proof {
            assert(sel@ =~= all.take(min(limit as int, all.len() as int)));
        }
        // Concatenate the selected chunk contents.
        let mut answer = String::new();
        let mut k: usize = 0;
        proof {
            assert(answer@ =~= answer_of(cs, sel@.take(0)));
        }
        while k < sel.len()
            invariant
                k <= sel@.len(),
                answer@ == answer_of(cs, sel@.take(k as int)),
                forall|t: int|
                    0 <= t < sel@.len() ==> (#[trigger] sel@[t]).0 < ms.len() && sel@[t].1
                        < cs.len(),
            decreases sel@.len() - k,
        {
            let ci = sel[k].1;
            if k > 0 {
                answer.append("\n\n");
            }
            answer.append(self.store.chunks[ci].content.as_str());
            proof {
                assert(sel@.take(k + 1).drop_last() =~= sel@.take(k as int));
                assert(sel@.take(k + 1).last() == sel@[k as int]);
                if k == 0 {
                    assert(answer@ =~= answer_of(cs, sel@.take(1)));
                }
            }
            k = k + 1;
        }
        proof {
            assert(sel@.take(sel@.len() as int) =~= sel@);
        }
        // Build the citations when asked.
        let mut citations: Vec<Citation> = Vec::new();
        if request.include_citations {
            let mut k: usize = 0;
            while k < sel.len()
                invariant
                    k <= sel@.len(),
                    citations@.len() == k,
                    forall|t: int|
                        0 <= t < sel@.len() ==> (#[trigger] sel@[t]).0 < ms.len() && sel@[t].1
                            < cs.len(),
                    forall|t: int|
                        0 <= t < k ==> citation_matches(
                            #[trigger] citations@[t],
                            ms[sel@[t].0 as int],
                            cs[sel@[t].1 as int],
                        ),
                decreases sel@.len() - k,
            {
                let mi = sel[k].0;
                let ci = sel[k].1;
                citations.push(
                    Citation {
                        id: self.store.memories[mi].id.clone(),
                        title: clone_opt_string(&self.store.memories[mi].title),
                        content: self.store.chunks[ci].content.clone(),
                        relevance_score: PLACEHOLDER_SCORE,
                        source: clone_opt_string(&self.store.memories[mi].source),
                    },
                );
                k = k + 1;
            }
        }
        let confidence: u32 = if citations.len() > 0 {
            PLACEHOLDER_SCORE
        } else {
            0
        };
        Ok(QueryResult { answer, citations, confidence, processing_time_ms: 100 })
    }

    /// Counts memories, chunks and embeddings, and derives the storage
    /// estimate: one thousand bytes per memory and five hundred per
    /// chunk.
    pub fn get_stats(&self, now: u64) -> (r: Result<MemoryStats, MemoryError>)
        requires
            now <= MAX_TIMESTAMP_SECS,
            self.store.memories@.len() <= 0x0010_0000_0000_0000,
            self.store.chunks@.len() <= 0x0010_0000_0000_0000,
        ensures
            r matches Ok(st) ==> st.total_memories == self.store.memories@.len()
                && st.total_chunks == self.store.chunks@.len() && st.total_embeddings
                == self.store.embeddings@.len() && st.storage_size_bytes == self.store.memories@.len()
                * 1000 + self.store.chunks@.len() * 500 && st.last_updated@ == rfc3339_of(now),
            r is Ok,
    {
        let m = self.store.memories.len() as u64;
        let c = self.store.chunks.len() as u64;
        let e = self.store.embeddings.len() as u64;
        let storage = m * 1000 + c * 500;
        Ok(
            MemoryStats {
                total_memories: m,
                total_chunks: c,
                total_embeddings: e,
                storage_size_bytes: storage,
                last_updated: format_rfc3339(now),
            },
        )
    }
}

/// A memory position beyond the table matches nothing.
pub proof fn lemma_chunk_pairs_oob(
    ms: Seq<MemoryRow>,
    cs: Seq<ChunkRow>,
    mi: usize,
    q: Seq<char>,
    n: int,
)
    requires
        mi >= ms.len(),
    ensures
        memory_chunk_pairs(ms, cs, mi, q, n) == Seq::<(usize, usize)>::empty(),
    decreases n,
{
    if n > 0 {
        lemma_chunk_pairs_oob(ms, cs, mi, q, n - 1);
        assert(memory_chunk_pairs(ms, cs, mi, q, n) =~= Seq::<(usize, usize)>::empty());
    }
}

impl MemoryManager {
    /// The tag names linked to a memory, resolved in link-table order.
    #[verifier::loop_isolation(false)]
    fn get_memory_tags(&self, memory_id: &String) -> (r: Vec<String>)
        ensures
            r.deep_view() == tag_names_of(self.store.tags@, self.store.memory_tags@, memory_id@),
    {
        let ghost ts = self.store.tags@;
        let ghost ls = self.store.memory_tags@;
        let mut names: Vec<String> = Vec::new();
        let mut i: usize = 0;
        proof {
            assert(ls.take(0) =~= Seq::<MemoryTagRow>::empty());
            assert(names.deep_view() =~= tag_names_of(ts, ls.take(0), memory_id@));
        }
        while i < self.store.memory_tags.len()
            invariant
                i <= ls.len(),
                names.deep_view() == tag_names_of(ts, ls.take(i as int), memory_id@),
            decreases ls.len() - i,
        {
            let ghost prev = names.deep_view();
            if str_eq(self.store.memory_tags[i].memory_id.as_str(), memory_id.as_str()) {
                let name: String = match find_tag_by_id(
                    &self.store.tags,
                    self.store.memory_tags[i].tag_id.as_str(),
                ) {
                    Some(w) => {
                        proof {
                            lemma_tag_name_by_id_first(ts, ls[i as int].tag_id@, w as int);
                        }
                        self.store.tags[w].name.clone()
                    },
                    None => {
                        proof {
                            lemma_tag_name_by_id_absent(ts, ls[i as int].tag_id@);
                        }
                        String::new()
                    },
                };
                names.push(name);
                proof {
                    assert(names.deep_view() =~= prev.push(
                        tag_name_by_id(ts, ls[i as int].tag_id@),
                    ));
                }
            }
            proof {
                assert(ls.take(i + 1).drop_last() =~= ls.take(i as int));
                assert(ls.take(i + 1).last() == ls[i as int]);
                assert(names.deep_view() == tag_names_of(ts, ls.take(i + 1), memory_id@));
            }
            i = i + 1;
        }
        proof {
            assert(ls.take(ls.len() as int) =~= ls);
        }
        names
    }

    /// Whether the memory row carries any of the given tag names.
    #[verifier::loop_isolation(false)]
    fn memory_matches_tags(&self, mid: &String, names: &Vec<String>) -> (r: bool)
        requires
            self.store.wf(),
        ensures
            r == (exists|t: int|
                0 <= t < names.deep_view().len() && memory_has_tag(
                    self.store.tags@,
                    self.store.memory_tags@,
                    mid@,
                    #[trigger] names.deep_view()[t],
                )),
    {
        let ghost ts = self.store.tags@;
        let ghost ls = self.store.memory_tags@;
        let mut t: usize = 0;
        while t < names.len()
            invariant
                t <= names.deep_view().len(),
                forall|u: int|
                    0 <= u < t ==> !memory_has_tag(ts, ls, mid@, #[trigger] names.deep_view()[u]),
            decreases names.deep_view().len() - t,
        {
            match find_tag_by_name(&self.store.tags, names[t].as_str()) {
                Some(w) => {
                    proof {
                        lemma_tag_id_of_row(ts, w as int);
                    }
                    if link_present(&self.store.memory_tags, mid.as_str(), self.store.tags[w].id.as_str()) {
                        proof {
                            assert(memory_has_tag(ts, ls, mid@, names.deep_view()[t as int]));
                        }
                        return true;
                    }
                },
                None => {},
            }
            t = t + 1;
        }
        false
    }

    /// Searches memories: with tag names given, the memories linked to
    /// any of them; otherwise the memories whose folded content contains
    /// the folded query. Both paths order by most-recently-updated and
    /// cap at the limit (twenty when absent); every returned entry
    /// carries its resolved tag list and rendered timestamps.
    #[verifier::loop_isolation(false)]
    pub fn search_memories(
        &self,
        query: &String,
        limit: Option<usize>,
        tags: Option<Vec<String>>,
    ) -> (r: Result<Vec<MemoryEntry>, MemoryError>)
        requires
            self.store.wf(),
        ensures
            r is Ok,
            r matches Ok(out) ==> ({
                let ms = self.store.memories@;
                let ts = self.store.tags@;
                let ls = self.store.memory_tags@;
                let lim = match limit {
                    Some(l) => l as int,
                    None => 20int,
                };
                let sel = match tags {
                    Some(names) => search_selection(
                        ms,
                        |m: MemoryRow| mem_tag_match(ts, ls, m, names.deep_view()),
                        lim,
                    ),
                    None => search_selection(
                        ms,
                        |m: MemoryRow|
                            seq_contains_sub(lower_of(m.content@), lower_of(query@)),
                        lim,
                    ),
                };
                &&& out@.len() == sel.len()
                &&& forall|k: int|
                    0 <= k < sel.len() ==> entry_matches(
                        #[trigger] out@[k],
                        ms[sel[k] as int],
                        ts,
                        ls,
                    )
            }),
    {
        let ghost ms = self.store.memories@;
        let ghost ts = self.store.tags@;
        let ghost ls = self.store.memory_tags@;
        let lim: usize = match limit {
            Some(l) => l,
            None => 20,
        };
        let ghost pred: spec_fn(MemoryRow) -> bool = match tags {
            Some(ref names) => |m: MemoryRow| mem_tag_match(ts, ls, m, names.deep_view()),
            None => |m: MemoryRow| seq_contains_sub(lower_of(m.content@), lower_of(query@)),
        };
        let lq = lowercase(query.as_str());
        // Key every memory by recency and sort.
        let mut rec: Vec<(u64, usize)> = Vec::new();
        let mut i: usize = 0;
        proof {
            assert(rec@ =~= recency_pairs(ms).take(0));
        }
        while i < self.store.memories.len()
            invariant
                i <= ms.len(),
                rec@ == recency_pairs(ms).take(i as int),
            decreases ms.len() - i,
        {
            rec.push((self.store.memories[i].updated_at, i));
            proof {
                assert(rec@ =~= recency_pairs(ms).take(i + 1));
            }
            i = i + 1;
        }
        proof {
            assert(recency_pairs(ms).take(ms.len() as int) =~= recency_pairs(ms));
        }
        let order = sort_pairs_desc(&rec);
        // Keep the matching memories in order.
        let mut sel: Vec<usize> = Vec::new();
        let mut oi: usize = 0;
        proof {
            assert(order@.take(0) =~= Seq::<(u64, usize)>::empty());
        }
        while oi < order.len()
            invariant
                oi <= order@.len(),
                sel@ == filter_order(ms, order@.take(oi as int), pred),
                forall|k: int| 0 <= k < sel@.len() ==> (#[trigger] sel@[k]) < ms.len(),
            decreases order@.len() - oi,
        {
            let mi = order[oi].1;
            let ghost prev = sel@;
            if mi < self.store.memories.len() {
                let keep: bool = match tags {
                    Some(ref names) => self.memory_matches_tags(&self.store.memories[mi].id, names),
                    None => {
                        let lm = lowercase(self.store.memories[mi].content.as_str());
                        contains_sub(lm.as_str(), lq.as_str())
                    },
                };
                proof {
                    assert(keep == pred(ms[mi as int]));
                }
                if keep {
                    sel.push(mi);
                }
            }
            proof {
                assert(order@.take(oi + 1).drop_last() =~= order@.take(oi as int));
                assert(order@.take(oi + 1).last() == order@[oi as int]);
                if mi < ms.len() && pred(ms[mi as int]) {
                    assert(sel@ =~= prev.push(mi));
                    assert(sel@ =~= prev + seq![mi]);
                } else {
                    assert(sel@ =~= prev + Seq::<usize>::empty());
                }
                assert(sel@ == filter_order(ms, order@.take(oi + 1), pred));
            }
            oi = oi + 1;
        }
        proof {
            assert(order@.take(order@.len() as int) =~= order@);
        }
        let ghost all = filter_order(ms, sort_desc(recency_pairs(ms)), pred);
        if sel.len() > lim {
            sel.truncate(lim);
        }
        proof {
            assert(sel@ =~= all.take(min(lim as int, all.len() as int)));
        }
        // Resolve every selected row into an entry.
        let mut out: Vec<MemoryEntry> = Vec::new();
        let mut k: usize = 0;
        while k < sel.len()
            invariant
                k <= sel@.len(),
                out@.len() == k,
                forall|u: int| 0 <= u < sel@.len() ==> (#[trigger] sel@[u]) < ms.len(),
                forall|u: int|
                    0 <= u < k ==> entry_matches(#[trigger] out@[u], ms[sel@[u] as int], ts, ls),
            decreases sel@.len() - k,
        {
            let mi = sel[k];
            let row_tags = self.get_memory_tags(&self.store.memories[mi].id);
            let e = MemoryEntry {
                id: Some(self.store.memories[mi].id.clone()),
                content: self.store.memories[mi].content.clone(),
                title: clone_opt_string(&self.store.memories[mi].title),
                tags: row_tags,
                source: clone_opt_string(&self.store.memories[mi].source),
                created_at: Some(format_rfc3339(self.store.memories[mi].created_at)),
                updated_at: Some(format_rfc3339(self.store.memories[mi].updated_at)),
            };
            out.push(e);
            k = k + 1;
        }
        Ok(out)
    }
}

/// An id that no tag row carries resolves to the empty name.
pub proof fn lemma_tag_name_by_id_absent(ts: Seq<TagRow>, tid: Seq<char>)
    requires
        !has_tag_id(ts, tid),
    ensures
        tag_name_by_id(ts, tid) == Seq::<char>::empty(),
    decreases ts.len(),
{
    if ts.len() > 0 {
        assert(ts[0].id@ != tid);
        assert forall|k: int| 0 <= k < ts.skip(1).len() implies (#[trigger] ts.skip(1)[k]).id@
            != tid by {
            assert(ts.skip(1)[k] == ts[k + 1]);
        }
        lemma_tag_name_by_id_absent(ts.skip(1), tid);
    }
}


/// The lower-case hexadecimal digit of a value below sixteen.
pub open spec fn hex_digit(n: int) -> char {
    if n == 0 { '0' } else if n == 1 { '1' } else if n == 2 { '2' } else if n == 3 { '3' }
    else if n == 4 { '4' } else if n == 5 { '5' } else if n == 6 { '6' } else if n == 7 { '7' }
    else if n == 8 { '8' } else if n == 9 { '9' } else if n == 10 { 'a' } else if n == 11 { 'b' }
    else if n == 12 { 'c' } else if n == 13 { 'd' } else if n == 14 { 'e' } else if n == 15 { 'f' }
    else { '0' }
}

/// How one character stands inside a JSON string: quote and backslash
/// escaped, control characters as a four-digit escape, the rest as is.
pub open spec fn json_escaped_char(c: char) -> Seq<char> {
    if c == '"' {
        seq!['\\', '"']
    } else if c == '\\' {
        seq!['\\', '\\']
    } else if (c as int) < 0x20 {
        seq!['\\', 'u', '0', '0', hex_digit(c as int / 16), hex_digit(c as int % 16)]
    } else {
        seq![c]
    }
}

/// A text rendered as the body of a JSON string.
pub open spec fn json_escaped(s: Seq<char>) -> Seq<char>
    decreases s.len(),
{
    if s.len() == 0 {
        Seq::empty()
    } else {
        json_escaped(s.drop_last()) + json_escaped_char(s.last())
    }
}

/// The export payload: a JSON document carrying the requested format,
/// the export time, and an empty data list.
pub open spec fn export_json(format: Seq<char>, ts: Seq<char>) -> Seq<char> {
    "{\"format\":\""@ + json_escaped(format) + "\",\"exported_at\":\""@ + json_escaped(ts)
        + "\",\"data\":[]}"@
}

/// Renders a text as the body of a JSON string.
#[verifier::loop_isolation(false)]
fn append_json_escaped(out: &mut String, s: &str)
    ensures
        final(out)@ == old(out)@ + json_escaped(s@),
{
    let n = s.unicode_len();
    let mut i: usize = 0;
    proof {
        assert(s@.take(0) =~= Seq::<char>::empty());
        assert(old(out)@ + json_escaped(s@.take(0)) =~= old(out)@);
    }
    while i < n
        invariant
            i <= n,
            n == s@.len(),
            out@ == old(out)@ + json_escaped(s@.take(i as int)),
        decreases n - i,
    {
        let c = s.get_char(i);
        proof {
            assert(s@.take(i + 1).drop_last() =~= s@.take(i as int));
            assert(s@.take(i + 1).last() == s@[i as int]);
        }
        if c == '"' {
            out.append("\\\"");
            proof {
                reveal_strlit("\\\"");
                assert("\\\""@ =~= json_escaped_char('"'));
            }
        } else if c == '\\' {
            out.append("\\\\");
            proof {
                reveal_strlit("\\\\");
                assert("\\\\"@ =~= json_escaped_char('\\'));
            }
        } else if (c as u32) < 0x20 {
            out.append("\\u00");
            let d = c as u32;
            let hexd = "0123456789abcdef";
            proof {
                reveal_strlit("0123456789abcdef");
                assert(hexd@.len() == 16);
            }
            let hi = hexd.get_char((d / 16) as usize);
            let lo = hexd.get_char((d % 16) as usize);
            let hs = hexd.substring_char((d / 16) as usize, (d / 16) as usize + 1);
            let ls = hexd.substring_char((d % 16) as usize, (d % 16) as usize + 1);
            out.append(hs);
            out.append(ls);
            proof {
                reveal_strlit("\\u00");
                assert(hexd@[(d as int) / 16] == hex_digit(c as int / 16));
                assert(hexd@[(d as int) % 16] == hex_digit(c as int % 16));
                assert("\\u00"@ + hs@ + ls@ =~= json_escaped_char(c));
            }
        } else {
            let cs = s.substring_char(i, i + 1);
            out.append(cs);
            proof {
                assert(cs@ =~= json_escaped_char(c));
            }
        }
        proof {
            assert(out@ =~= old(out)@ + json_escaped(s@.take(i + 1)));
        }
        i = i + 1;
    }
    proof {
        assert(s@.take(n as int) =~= s@);
    }
}

impl MemoryManager {
    /// The placeholder insights payload: well-formed counts of zero for
    /// the requested period.
    pub fn get_insights(&self, period: String, now: u64) -> (r: Result<InsightsReport, MemoryError>)
        requires
            now <= MAX_TIMESTAMP_SECS,
        ensures
            r is Ok,
            r matches Ok(ir) ==> ir.period == period && ir.total_memories == 0 && ir.new_memories
                == 0 && ir.top_tags@.len() == 0 && ir.generated_at@ == rfc3339_of(now),
    {
        Ok(
            InsightsReport {
                period,
                total_memories: 0,
                new_memories: 0,
                top_tags: Vec::new(),
                generated_at: format_rfc3339(now),
            },
        )
    }

    /// The placeholder export: a well-formed JSON document naming the
    /// format and the export time, with an empty data list.
    pub fn export_data(&self, format: &String, now: u64) -> (r: Result<String, MemoryError>)
        requires
            now <= MAX_TIMESTAMP_SECS,
        ensures
            r is Ok,
            r matches Ok(s) ==> s@ == export_json(format@, rfc3339_of(now)),
    {
        let mut out = String::new();
        out.append("{\"format\":\"");
        append_json_escaped(&mut out, format.as_str());
        out.append("\",\"exported_at\":\"");
        let ts = format_rfc3339(now);
        append_json_escaped(&mut out, ts.as_str());
        out.append("\",\"data\":[]}");
        proof {
            assert(out@ =~= export_json(format@, rfc3339_of(now)));
        }
        Ok(out)
    }

    /// Validates an import payload: accepts exactly the texts that parse
    /// as JSON; nothing is stored either way.
    pub fn import_data(&mut self, data: &String, format: &String) -> (r: Result<(), MemoryError>)
        ensures
            final(self).store == old(self).store,
            is_valid_json(data@) <==> r is Ok,
            !is_valid_json(data@) ==> r == Err::<(), MemoryError>(MemoryError::Validation),
    {
        let _ = format;
        validate_import(data.as_str())
    }

    /// The placeholder embedding sync: nothing to compute, nothing
    /// changes.
    pub fn sync_embeddings(&mut self) -> (r: Result<(), MemoryError>)
        ensures
            final(self).store == old(self).store,
            r == Ok::<(), MemoryError>(()),
    {
        Ok(())
    }

    /// Static facts about the running process; platform and architecture
    /// come from the caller.
    pub fn get_system_info(&self, platform: String, arch: String) -> (r: Result<
        SystemInfo,
        MemoryError,
    >)
        ensures
            r is Ok,
            r matches Ok(si) ==> si.version@ == "0.1.0"@ && si.platform == platform && si.arch
                == arch && si.memory_usage == 0 && si.disk_usage == 0,
    {
        Ok(
            SystemInfo {
                version: "0.1.0".to_owned(),
                platform,
                arch,
                memory_usage: 0,
                disk_usage: 0,
            },
        )
    }
}


/// What one citation of the result list carries: the citation row's id
/// and score, the owning memory's title and source, and the cited
/// chunk's content.
pub open spec fn cited_ok(
    out: Citation,
    crow: CitationRow,
    ms: Seq<MemoryRow>,
    chs: Seq<ChunkRow>,
) -> bool {
    &&& out.id@ == crow.id@
    &&& out.relevance_score == crow.relevance_score
    &&& exists|m: int|
        0 <= m < ms.len() && (#[trigger] ms[m]).id@ == crow.memory_id@ && out.title == ms[m].title
            && out.source == ms[m].source
    &&& exists|c: int|
        0 <= c < chs.len() && (#[trigger] chs[c]).id@ == crow.chunk_id@ && out.content@
            == chs[c].content@
}

/// The score key of every citation row of a memory, paired with its
/// position, over the first `n` rows.
pub open spec fn citation_pairs(cs: Seq<CitationRow>, mid: Seq<char>, n: int) -> Seq<(u64, usize)>
    decreases n,
{
    if n <= 0 {
        Seq::empty()
    } else {
        citation_pairs(cs, mid, n - 1) + (if cs[n - 1].memory_id@ == mid {
            seq![(cs[n - 1].relevance_score as u64, (n - 1) as usize)]
        } else {
            Seq::empty()
        })
    }
}

/// A chunk row carrying the id, if any.
#[verifier::loop_isolation(false)]
fn find_chunk(cs: &Vec<ChunkRow>, id: &str) -> (r: Option<usize>)
    ensures
        match r {
            Some(i) => i < cs@.len() && cs@[i as int].id@ == id@,
            None => !has_chunk(cs@, id@),
        },
{
    let mut i: usize = 0;
    while i < cs.len()
        invariant
            i <= cs@.len(),
            forall|k: int| 0 <= k < i ==> (#[trigger] cs@[k]).id@ != id@,
        decreases cs@.len() - i,
    {
        if str_eq(cs[i].id.as_str(), id) {
            return Some(i);
        }
        i = i + 1;
    }
    None
}

impl MemoryManager {
    /// Returns the citations of a memory ordered by descending relevance
    /// score, each joined with its memory's title and source and its
    /// chunk's content for display.
    #[verifier::loop_isolation(false)]
    pub fn get_citations(&self, memory_id: &String) -> (r: Result<Vec<Citation>, MemoryError>)
        requires
            self.store.wf(),
        ensures
            r is Ok,
            r matches Ok(out) ==> ({
                let sel = sort_desc(
                    citation_pairs(self.store.citations@, memory_id@, self.store.citations@.len() as int),
                );
                &&& out@.len() == sel.len()
                &&& forall|k: int|
                    0 <= k < sel.len() ==> (#[trigger] sel[k]).1 < self.store.citations@.len()
                        && cited_ok(
                        out@[k],
                        self.store.citations@[sel[k].1 as int],
                        self.store.memories@,
                        self.store.chunks@,
                    )
            }),
    {
        let ghost cits = self.store.citations@;
        let mut pairs: Vec<(u64, usize)> = Vec::new();
        let mut i: usize = 0;
        proof {
            assert(pairs@ =~= citation_pairs(cits, memory_id@, 0));
        }
        while i < self.store.citations.len()
            invariant
                i <= cits.len(),
                pairs@ == citation_pairs(cits, memory_id@, i as int),
                forall|k: int| 0 <= k < pairs@.len() ==> (#[trigger] pairs@[k]).1 < cits.len(),
            decreases cits.len() - i,
        {
            let ghost prev = pairs@;
            if str_eq(self.store.citations[i].memory_id.as_str(), memory_id.as_str()) {
                pairs.push((self.store.citations[i].relevance_score as u64, i));
                proof {
                    assert(pairs@ =~= prev + seq![
                        (cits[i as int].relevance_score as u64, i as usize),
                    ]);
                }
            } else {
                proof {
                    assert(pairs@ =~= prev + Seq::<(u64, usize)>::empty());
                }
            }
            i = i + 1;
        }
        let order = sort_pairs_desc(&pairs);
        proof {
            lemma_sort_desc_permutes_bounds(pairs@, cits.len() as int);
        }
        let mut out: Vec<Citation> = Vec::new();
        let mut k: usize = 0;
        while k < order.len()
            invariant
                k <= order@.len(),
                out@.len() == k,
                order@ == sort_desc(citation_pairs(cits, memory_id@, cits.len() as int)),
                forall|u: int| 0 <= u < order@.len() ==> (#[trigger] order@[u]).1 < cits.len(),
                self.store.wf(),
                cits == self.store.citations@,
                forall|u: int|
                    0 <= u < k ==> cited_ok(
                        #[trigger] out@[u],
                        cits[order@[u].1 as int],
                        self.store.memories@,
                        self.store.chunks@,
                    ),
            decreases order@.len() - k,
        {
            let ci = order[k].1;
            proof {
                assert(has_memory(self.store.memories@, cits[ci as int].memory_id@));
            }
            let mw = match find_memory(&self.store.memories, self.store.citations[ci].memory_id.as_str()) {
                Some(w) => w,
                None => {
                    proof {
                        assert(false);
                    }
                    vstd::pervasive::unreached()
                },
            };
            proof {
                assert(exists|j: int|
                    0 <= j < self.store.chunks@.len() && (#[trigger] self.store.chunks@[j]).id@
                        == cits[ci as int].chunk_id@ && self.store.chunks@[j].memory_id@
                        == cits[ci as int].memory_id@);
                assert(has_chunk(self.store.chunks@, cits[ci as int].chunk_id@));
            }
            let cw = match find_chunk(&self.store.chunks, self.store.citations[ci].chunk_id.as_str()) {
                Some(w) => w,
                None => {
                    proof {
                        assert(false);
                    }
                    vstd::pervasive::unreached()
                },
            };
            out.push(
                Citation {
                    id: self.store.citations[ci].id.clone(),
                    title: clone_opt_string(&self.store.memories[mw].title),
                    content: self.store.chunks[cw].content.clone(),
                    relevance_score: self.store.citations[ci].relevance_score,
                    source: clone_opt_string(&self.store.memories[mw].source),
                },
            );
            k = k + 1;
        }
        Ok(out)
    }
}

/// Sorting keyed positions keeps every position inside its bound.
pub proof fn lemma_sort_desc_permutes_bounds(s: Seq<(u64, usize)>, bound: int)
    requires
        forall|k: int| 0 <= k < s.len() ==> (#[trigger] s[k]).1 < bound,
    ensures
        forall|k: int| 0 <= k < sort_desc(s).len() ==> (#[trigger] sort_desc(s)[k]).1 < bound,
    decreases s.len(),
{
    if s.len() > 0 {
        assert(forall|k: int|
            0 <= k < s.drop_last().len() ==> (#[trigger] s.drop_last()[k]).1 < bound);
        lemma_sort_desc_permutes_bounds(s.drop_last(), bound);
        lemma_insert_desc_bounds(sort_desc(s.drop_last()), s.last(), bound);
    }
}

/// Inserting a keyed position keeps every position inside its bound.
pub proof fn lemma_insert_desc_bounds(s: Seq<(u64, usize)>, x: (u64, usize), bound: int)
    requires
        forall|k: int| 0 <= k < s.len() ==> (#[trigger] s[k]).1 < bound,
        x.1 < bound,
    ensures
        forall|k: int| 0 <= k < insert_desc(s, x).len() ==> (#[trigger] insert_desc(s, x)[k]).1
            < bound,
    decreases s.len(),
{
    if s.len() == 0 {
    } else if x.0 > s[0].0 {
        assert forall|k: int| 0 <= k < insert_desc(s, x).len() implies (#[trigger] insert_desc(
            s,
            x,
        )[k]).1 < bound by {
            if k > 0 {
                assert(insert_desc(s, x)[k] == s[k - 1]);
            }
        }
    } else {
        assert(forall|k: int| 0 <= k < s.skip(1).len() ==> (#[trigger] s.skip(1)[k]).1 < bound);
        lemma_insert_desc_bounds(s.skip(1), x, bound);
        assert forall|k: int| 0 <= k < insert_desc(s, x).len() implies (#[trigger] insert_desc(
            s,
            x,
        )[k]).1 < bound by {
            if k > 0 {
                assert(insert_desc(s, x)[k] == insert_desc(s.skip(1), x)[k - 1]);
            }
        }
    }
}


impl MemoryManager {
    /// Replaces a memory's title, content and source, bumps its update
    /// time, and fully replaces its tag associations (unlink all, then
    /// re-link). Chunks are not regenerated. Rejects an id that no
    /// memory row carries, changing nothing.
    #[verifier::loop_isolation(false)]
    pub fn update_memory(&mut self, id: &String, entry: MemoryEntry, now: u64) -> (r: Result<
        (),
        MemoryError,
    >)
        requires
            old(self).store.wf(),
            now <= MAX_TIMESTAMP_SECS,
        ensures
            final(self).store.wf(),
            final(self).store.vaults == old(self).store.vaults,
            final(self).store.chunks == old(self).store.chunks,
            final(self).store.citations == old(self).store.citations,
            final(self).store.embeddings == old(self).store.embeddings,
            rows_prefix(old(self).store.tags@, final(self).store.tags@),
            !has_memory(old(self).store.memories@, id@) ==> r == Err::<(), MemoryError>(
                MemoryError::NotFound,
            ) && final(self).store == old(self).store,
            r is Err ==> final(self).store.memories == old(self).store.memories
                && final(self).store.memory_tags == old(self).store.memory_tags,
            r matches Err(e) ==> e == MemoryError::NotFound || e == MemoryError::Persistence,
            has_memory(old(self).store.memories@, id@) ==> (r matches Err(e) ==> e
                == MemoryError::Persistence),
            has_memory(old(self).store.memories@, id@) && (forall|t: int|
                0 <= t < entry.tags@.len() ==> has_tag_named(
                    old(self).store.tags@,
                    (#[trigger] entry.tags@[t])@,
                )) ==> r is Ok,
            has_memory(old(self).store.memories@, id@) && r is Ok ==> ({
                let ms0 = old(self).store.memories@;
                let ms1 = final(self).store.memories@;
                &&& ms1.len() == ms0.len()
                &&& forall|i: int|
                    0 <= i < ms0.len() && (#[trigger] ms0[i]).id@ != id@ ==> ms1[i] == ms0[i]
                &&& forall|i: int|
                    0 <= i < ms0.len() && (#[trigger] ms0[i]).id@ == id@ ==> ms1[i].id@ == id@
                        && ms1[i].vault_id == ms0[i].vault_id && ms1[i].title == entry.title
                        && ms1[i].content == entry.content && ms1[i].source == entry.source
                        && ms1[i].created_at == ms0[i].created_at && ms1[i].updated_at == now
                &&& ({
                    let kept = old(self).store.memory_tags@.filter(
                        |l: MemoryTagRow| l.memory_id@ != id@,
                    );
                    let ls1 = final(self).store.memory_tags@;
                    &&& ls1.len() >= kept.len()
                    &&& ls1.take(kept.len() as int) == kept
                    &&& forall|i: int|
                        kept.len() <= i < ls1.len() ==> (#[trigger] ls1[i]).memory_id@ == id@
                    &&& forall|i: int|
                        kept.len() <= i < ls1.len() ==> exists|t: int|
                            0 <= t < entry.tags@.len() && (#[trigger] ls1[i]).tag_id@ == tag_id_of(
                                final(self).store.tags@,
                                entry.tags@[t]@,
                            )
                })
                &&& forall|t: int|
                    0 <= t < entry.tags@.len() ==> memory_has_tag(
                        final(self).store.tags@,
                        final(self).store.memory_tags@,
                        id@,
                        (#[trigger] entry.tags@[t])@,
                    )
            }),
    {
        let w = match find_memory(&self.store.memories, id.as_str()) {
            Some(w) => w,
            None => {
                return Err(MemoryError::NotFound);
            },
        };
        let ghost all_tags_present = forall|t: int|
            0 <= t < entry.tags@.len() ==> has_tag_named(
                old(self).store.tags@,
                (#[trigger] entry.tags@[t])@,
            );
        // Resolve or create every tag before any row changes.
        let mut tag_ids: Vec<String> = Vec::new();
        let mut t: usize = 0;
        while t < entry.tags.len()
            invariant
                t <= entry.tags@.len(),
                tag_ids.deep_view().len() == t,
                self.store.wf(),
                self.store.vaults == old(self).store.vaults,
                self.store.memories == old(self).store.memories,
                self.store.chunks == old(self).store.chunks,
                self.store.memory_tags == old(self).store.memory_tags,
                self.store.citations == old(self).store.citations,
                self.store.embeddings == old(self).store.embeddings,
                rows_prefix(old(self).store.tags@, self.store.tags@),
                all_tags_present ==> self.store.tags == old(self).store.tags,
                forall|u: int|
                    0 <= u < t ==> has_tag_named(self.store.tags@, (#[trigger] entry.tags@[u])@)
                        && tag_ids.deep_view()[u] == tag_id_of(
                        self.store.tags@,
                        entry.tags@[u]@,
                    ),
            decreases entry.tags@.len() - t,
        {
            let ghost tags_before = self.store.tags@;
            let tid = match self.ensure_tag(entry.tags[t].as_str(), now) {
                Ok(x) => x,
                Err(e) => {
                    proof {
                        if all_tags_present {
                            assert(has_tag_named(tags_before, entry.tags@[t as int]@));
                            assert(false);
                        }
                    }
                    return Err(e);
                },
            };
            proof {
                assert forall|u: int| 0 <= u < t implies has_tag_named(
                    self.store.tags@,
                    (#[trigger] entry.tags@[u])@,
                ) && tag_ids.deep_view()[u] == tag_id_of(self.store.tags@, entry.tags@[u]@) by {
                    lemma_tag_id_stable(tags_before, self.store.tags@, entry.tags@[u]@);
                }
            }
            tag_ids.push(tid);
            proof {
                assert(tag_ids.deep_view()[t as int] == tag_id_of(
                    self.store.tags@,
                    entry.tags@[t as int]@,
                ));
            }
            t = t + 1;
        }
        // Replace the row's fields in place.
        let ghost pre_row = self.store;
        let oldrow = self.store.memories.remove(w);
        let newrow = MemoryRow {
            id: oldrow.id,
            vault_id: oldrow.vault_id,
            title: entry.title,
            content: entry.content,
            source: entry.source,
            created_at: oldrow.created_at,
            updated_at: now,
        };
        self.store.memories.insert(w, newrow);
        proof {
            assert(self.store.memories@ =~= pre_row.memories@.update(w as int, newrow));
            assert(self.store.memories@[w as int].id@ == id@);
            assert forall|a: int, b: int|
                0 <= a < b < self.store.memories@.len() implies (
            #[trigger] self.store.memories@[a]).id@ != (#[trigger] self.store.memories@[b]).id@ by {
                assert(self.store.memories@[a].id@ == pre_row.memories@[a].id@);
                assert(self.store.memories@[b].id@ == pre_row.memories@[b].id@);
            }
            assert forall|x: Seq<char>| has_memory(pre_row.memories@, x) implies has_memory(
                self.store.memories@,
                x,
            ) by {
                let j = choose|j: int|
                    0 <= j < pre_row.memories@.len() && (#[trigger] pre_row.memories@[j]).id@ == x;
                assert(self.store.memories@[j].id@ == x);
            }
            assert(self.store.chunks_owned());
            assert(self.store.links_owned());
            crate::store::lemma_citations_owned_memories_kept(&pre_row, &self.store);
            assert forall|i: int| 0 <= i < self.store.memories@.len() implies (
            #[trigger] self.store.memories@[i]).created_at <= MAX_TIMESTAMP_SECS
                && self.store.memories@[i].updated_at <= MAX_TIMESTAMP_SECS by {
                assert(pre_row.memories@[i].created_at <= MAX_TIMESTAMP_SECS
                    && pre_row.memories@[i].updated_at <= MAX_TIMESTAMP_SECS);
                if i != w as int {
                    assert(self.store.memories@[i] == pre_row.memories@[i]);
                }
            }
            assert(self.store.timestamps_ok());
            assert(self.store.memory_ids_unique());
            assert(self.store.chunk_ids_unique());
            assert(self.store.tags_unique());
            assert(self.store.links_unique());
            assert(self.store.chunks_owned());
            assert(self.store.links_owned());
            assert(self.store.citations_owned());
            assert(self.store.timestamps_ok());
            assert(self.store.wf());
        }
        // Unlink every tag of this memory, then re-link the given set.
        let ghost pre_links = self.store;
        let new_links = filter_links_not(&self.store.memory_tags, id.as_str());
        let ghost nl = new_links@;
        self.store.memory_tags = new_links;
        proof {
            broadcast use vstd::seq_lib::group_filter_ensures;

            assert forall|i: int| 0 <= i < self.store.memory_tags@.len() implies has_memory(
                self.store.memories@,
                (#[trigger] self.store.memory_tags@[i]).memory_id@,
            ) && has_tag_id(self.store.tags@, self.store.memory_tags@[i].tag_id@) by {
                assert(nl[i] == self.store.memory_tags@[i]);
                let j = choose|j: int|
                    0 <= j < pre_links.memory_tags@.len() && #[trigger] nl[i]
                        == pre_links.memory_tags@[j];
                assert(has_memory(pre_links.memories@, pre_links.memory_tags@[j].memory_id@));
                assert(has_tag_id(pre_links.tags@, pre_links.memory_tags@[j].tag_id@));
            }
            crate::store::lemma_citations_owned_grow(&pre_links, &self.store);
            crate::store::lemma_chunks_owned_grow(&pre_links, &self.store);
            assert(self.store.memory_ids_unique());
            assert(self.store.chunk_ids_unique());
            assert(self.store.tags_unique());
            assert(self.store.links_unique());
            assert(self.store.chunks_owned());
            assert(self.store.links_owned());
            assert(self.store.citations_owned());
            assert(self.store.timestamps_ok());
            assert(self.store.wf());
        }
        let ghost kept = self.store.memory_tags@;
        proof {
            assert forall|u: int| 0 <= u < tag_ids.deep_view().len() implies has_tag_id(
                self.store.tags@,
                #[trigger] tag_ids.deep_view()[u],
            ) by {
                lemma_tag_id_present(self.store.tags@, entry.tags@[u]@);
            }
        }
        // Re-link, skipping a repeated tag.
        let mut t: usize = 0;
        while t < tag_ids.len()
            invariant
                t <= tag_ids.deep_view().len(),
                self.store.wf(),
                self.store.vaults == pre_links.vaults,
                self.store.memories == pre_links.memories,
                self.store.chunks == pre_links.chunks,
                self.store.tags == pre_links.tags,
                self.store.citations == pre_links.citations,
                self.store.embeddings == pre_links.embeddings,
                has_memory(self.store.memories@, id@),
                forall|u: int|
                    0 <= u < tag_ids.deep_view().len() ==> has_tag_id(
                        self.store.tags@,
                        #[trigger] tag_ids.deep_view()[u],
                    ),
                self.store.memory_tags@.len() >= kept.len(),
                self.store.memory_tags@.take(kept.len() as int) == kept,
                forall|i: int|
                    kept.len() <= i < self.store.memory_tags@.len() ==> (
                    #[trigger] self.store.memory_tags@[i]).memory_id@ == id@,
                forall|i: int|
                    kept.len() <= i < self.store.memory_tags@.len() ==> exists|u: int|
                        0 <= u < tag_ids.deep_view().len() && (
                        #[trigger] self.store.memory_tags@[i]).tag_id@ == tag_ids.deep_view()[u],
                forall|u: int|
                    0 <= u < t ==> has_link(
                        self.store.memory_tags@,
                        id@,
                        #[trigger] tag_ids.deep_view()[u],
                    ),
            decreases tag_ids.deep_view().len() - t,
        {
            if !link_present(&self.store.memory_tags, id.as_str(), tag_ids[t].as_str()) {
                let ghost pre_link = self.store;
                let link = MemoryTagRow { memory_id: id.clone(), tag_id: tag_ids[t].clone() };
                self.store.memory_tags.push(link);
                proof {
                    let last = self.store.memory_tags@.len() - 1;
                    assert(self.store.memory_tags@[last].memory_id@ == id@);
                    assert(self.store.memory_tags@[last].tag_id@ == tag_ids.deep_view()[t as int]);
                    assert forall|i: int|
                        kept.len() <= i < self.store.memory_tags@.len() implies exists|u: int|
                        0 <= u < tag_ids.deep_view().len() && (
                        #[trigger] self.store.memory_tags@[i]).tag_id@
                            == tag_ids.deep_view()[u] by {
                        if i < pre_link.memory_tags@.len() {
                            let u = choose|u: int|
                                0 <= u < tag_ids.deep_view().len() && (
                                #[trigger] pre_link.memory_tags@[i]).tag_id@
                                    == tag_ids.deep_view()[u];
                            assert(self.store.memory_tags@[i].tag_id@ == tag_ids.deep_view()[u]);
                        } else {
                            let ti = t as int;
                            assert(self.store.memory_tags@[i].tag_id@ == tag_ids.deep_view()[ti]);
                        }
                    }
                    assert forall|u: int| 0 <= u < t implies has_link(
                        self.store.memory_tags@,
                        id@,
                        #[trigger] tag_ids.deep_view()[u],
                    ) by {
                        let v = choose|v: int|
                            0 <= v < pre_link.memory_tags@.len() && (
                            #[trigger] pre_link.memory_tags@[v]).memory_id@ == id@
                                && pre_link.memory_tags@[v].tag_id@ == tag_ids.deep_view()[u];
                        assert(self.store.memory_tags@[v].memory_id@ == id@
                            && self.store.memory_tags@[v].tag_id@ == tag_ids.deep_view()[u]);
                    }
                    assert(self.store.links_unique());
                    assert forall|i: int| 0 <= i < self.store.memory_tags@.len() implies has_memory(
                        self.store.memories@,
                        (#[trigger] self.store.memory_tags@[i]).memory_id@,
                    ) && has_tag_id(self.store.tags@, self.store.memory_tags@[i].tag_id@) by {
                        if i < pre_link.memory_tags@.len() {
                            assert(pre_link.links_owned());
                            assert(has_memory(
                                pre_link.memories@,
                                pre_link.memory_tags@[i].memory_id@,
                            ));
                        } else {
                            let ti = t as int;
                            assert(self.store.memory_tags@[i].tag_id@ == tag_ids.deep_view()[ti]);
                        }
                    }
                    crate::store::lemma_chunks_owned_grow(&pre_link, &self.store);
                    crate::store::lemma_citations_owned_grow(&pre_link, &self.store);
                    assert(self.store.wf());
                    assert(self.store.memory_tags@.take(kept.len() as int) =~= kept);
                }
            }
            proof {
                assert(has_link(self.store.memory_tags@, id@, tag_ids.deep_view()[t as int]));
            }
            t = t + 1;
        }
        proof {
            assert forall|u: int| 0 <= u < entry.tags@.len() implies memory_has_tag(
                self.store.tags@,
                self.store.memory_tags@,
                id@,
                (#[trigger] entry.tags@[u])@,
            ) by {
                assert(tag_ids.deep_view()[u] == tag_id_of(self.store.tags@, entry.tags@[u]@));
                assert(has_link(self.store.memory_tags@, id@, tag_ids.deep_view()[u]));
            }
            assert forall|i: int|
                kept.len() <= i < self.store.memory_tags@.len() implies exists|tt: int|
                0 <= tt < entry.tags@.len() && (#[trigger] self.store.memory_tags@[i]).tag_id@
                    == tag_id_of(self.store.tags@, entry.tags@[tt]@) by {
                let u = choose|u: int|
                    0 <= u < tag_ids.deep_view().len() && (
                    #[trigger] self.store.memory_tags@[i]).tag_id@ == tag_ids.deep_view()[u];
                assert(tag_ids.deep_view()[u] == tag_id_of(self.store.tags@, entry.tags@[u]@));
            }
        }
        Ok(())
    }
}

} // verus!
