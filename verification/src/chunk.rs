//! Chunking: a memory's content is split into whitespace-delimited
//! tokens, grouped into runs of `CHUNK_WORDS` tokens, and each run is
//! re-joined with single spaces. The tokens of the chunks, concatenated
//! in order, are exactly the tokens of the original content.

use vstd::math::min;
use vstd::prelude::*;

use crate::text::{
    all_good, flush_word, good_word, lemma_scan_concat, lemma_scan_no_space, lemma_scan_step,
    scan_words, split_words, words_of,
};

verus! {

/// How many tokens one chunk holds.
pub const CHUNK_WORDS: usize = 50;

/// How many chunks a token count yields: the count divided by the chunk
/// size, rounded up.
pub open spec fn chunk_count(nwords: int) -> int {
    (nwords + 49) / 50
}

/// Joins the tokens at indices `from` through `to` (exclusive) with
/// single spaces; the tokens of the result are exactly that range.
fn join_words(words: &Vec<String>, from: usize, to: usize) -> (r: String)
    requires
        from < to <= words@.len(),
        all_good(words.deep_view()),
    ensures
        words_of(r@) == words.deep_view().subrange(from as int, to as int),
{
    let ghost wv = words.deep_view();
    let mut r: String = words[from].clone();
    let mut k: usize = from + 1;
    proof {
        assert(r@ == wv[from as int]);
        lemma_scan_no_space(r@, Seq::empty(), Seq::empty());
        assert(Seq::<char>::empty() + r@ =~= r@);
        assert(wv.subrange(from as int, from as int) =~= Seq::<Seq<char>>::empty());
    }
    while k < to
        invariant
            from < k <= to <= wv.len(),
            wv == words.deep_view(),
            all_good(wv),
            scan_words(r@, Seq::empty(), Seq::empty()) == (
                wv.subrange(from as int, k - 1),
                wv[k - 1],
            ),
        decreases to - k,
    {
        let ghost done0 = wv.subrange(from as int, k - 1);
        let ghost cur0 = wv[k - 1];
        proof {
            lemma_scan_step(r@, ' ', done0, cur0);
            assert(good_word(cur0));
            assert(flush_word(done0, cur0) == done0.push(cur0));
            assert(done0.push(cur0) =~= wv.subrange(from as int, k as int));
        }
        let ghost r0 = r@;
        r.append(" ");
        proof {
            reveal_strlit(" ");
            assert(" "@ =~= seq![' ']);
            assert(r@ =~= r0.push(' '));
        }
        proof {
            assert(scan_words(r@, Seq::empty(), Seq::empty()) == (
                wv.subrange(from as int, k as int),
                Seq::<char>::empty(),
            ));
        }
        let w: &String = &words[k];
        proof {
            assert(w@ == wv[k as int]);
            assert(good_word(wv[k as int]));
            lemma_scan_concat(r@, w@, Seq::empty(), Seq::empty());
            lemma_scan_no_space(
                w@,
                wv.subrange(from as int, k as int),
                Seq::<char>::empty(),
            );
            assert(Seq::<char>::empty() + w@ =~= w@);
        }
        r.append(w.as_str());
        k = k + 1;
    }
    proof {
        assert(words_of(r@) == flush_word(wv.subrange(from as int, k - 1), wv[k - 1]));
        assert(good_word(wv[k - 1]));
        assert(wv.subrange(from as int, k - 1).push(wv[k - 1]) =~= wv.subrange(
            from as int,
            k as int,
        ));
    }
    r
}

/// Splits content into tokens and groups them into chunks of
/// `CHUNK_WORDS` tokens each, the last chunk holding the remainder.
pub fn create_chunks(content: &str) -> (chunks: Vec<String>)
    ensures
        chunks.deep_view().len() == chunk_count(words_of(content@).len() as int),
        forall|k: int|
            0 <= k < chunks.deep_view().len() ==> words_of(#[trigger] chunks.deep_view()[k])
                == words_of(content@).subrange(
                50 * k,
                min(50 * k + 50, words_of(content@).len() as int),
            ),
{
    let words = split_words(content);
    let ghost wv = words.deep_view();
    let wlen = words.len();
    let mut chunks: Vec<String> = Vec::new();
    let mut i: usize = 0;
    while i < wlen
        invariant
            i <= wlen,
            wlen == wv.len(),
            wv == words.deep_view(),
            wv == words_of(content@),
            all_good(wv),
            chunks.deep_view().len() == chunk_count(i as int),
            i == 50 * chunks.deep_view().len() || i == wlen,
            forall|k: int|
                0 <= k < chunks.deep_view().len() ==> words_of(#[trigger] chunks.deep_view()[k])
                    == wv.subrange(50 * k, min(50 * k + 50, wlen as int)),
        decreases wlen - i,
    {
        let ghost prev = chunks.deep_view();
        let j: usize = if wlen - i < CHUNK_WORDS {
            wlen
        } else {
            i + CHUNK_WORDS
        };
        let piece = join_words(&words, i, j);
        chunks.push(piece);
        proof {
            assert(chunks.deep_view() =~= prev.push(piece@));
            assert(i == 50 * prev.len());
            assert(wv.subrange(i as int, j as int) == wv.subrange(
                50 * prev.len() as int,
                min(50 * prev.len() as int + 50, wlen as int),
            ));
            assert(chunk_count(j as int) == prev.len() + 1) by (nonlinear_arith)
                requires
                    i == 50 * prev.len(),
                    chunk_count(i as int) == prev.len(),
                    i < wlen,
                    j == if wlen - i < 50 {
                        wlen as int
                    } else {
                        i + 50
                    },
            ;
        }
        i = j;
    }
    proof {
        assert(i == wlen);
    }
    chunks
}

/// The tokens of a sequence of chunk texts, concatenated in order.
pub open spec fn chunks_words(chunks: Seq<Seq<char>>) -> Seq<Seq<char>>
    decreases chunks.len(),
{
    if chunks.len() == 0 {
        Seq::empty()
    } else {
        words_of(chunks[0]) + chunks_words(chunks.skip(1))
    }
}

/// Chunk reconstruction: for any chunk list shaped as `create_chunks`
/// guarantees — one chunk per run of fifty tokens, each chunk carrying
/// exactly its run — re-joining all chunk tokens in order reproduces the
/// original token sequence.
pub proof fn lemma_chunks_reconstruct(chunks: Seq<Seq<char>>, ws: Seq<Seq<char>>)
    requires
        chunks.len() == chunk_count(ws.len() as int),
        forall|k: int|
            0 <= k < chunks.len() ==> words_of(#[trigger] chunks[k]) == ws.subrange(
                50 * k,
                min(50 * k + 50, ws.len() as int),
            ),
    ensures
        chunks_words(chunks) == ws,
    decreases chunks.len(),
{
    if chunks.len() == 0 {
        assert(ws.len() == 0) by (nonlinear_arith)
            requires
                chunk_count(ws.len() as int) == 0,
                ws.len() >= 0,
        ;
        assert(chunks_words(chunks) =~= ws);
    } else if ws.len() <= 50 {
        assert(chunks.len() == 1) by (nonlinear_arith)
            requires
                chunks.len() == chunk_count(ws.len() as int),
                0 < ws.len() <= 50,
        ;
        assert(words_of(chunks[0]) == ws.subrange(0, min((50 * 0 + 50) as int, ws.len() as int)));
        assert(min((50 * 0 + 50) as int, ws.len() as int) == ws.len() as int);
        assert(chunks.skip(1).len() == 0);
        assert(chunks_words(chunks.skip(1)) == Seq::<Seq<char>>::empty());
        assert(chunks_words(chunks) == words_of(chunks[0]) + chunks_words(chunks.skip(1)));
        assert(ws.subrange(0, ws.len() as int) + Seq::<Seq<char>>::empty() =~= ws);
    } else {
        let tail = chunks.skip(1);
        let wtail = ws.skip(50);
        assert(tail.len() == chunk_count(wtail.len() as int)) by (nonlinear_arith)
            requires
                chunks.len() == chunk_count(ws.len() as int),
                ws.len() > 50,
                tail.len() == chunks.len() - 1,
                wtail.len() == ws.len() - 50,
        ;
        assert forall|k: int| 0 <= k < tail.len() implies words_of(#[trigger] tail[k])
            == wtail.subrange(50 * k, min(50 * k + 50, wtail.len() as int)) by {
            assert(tail[k] == chunks[k + 1]);
            assert(words_of(chunks[k + 1]) == ws.subrange(
                50 * (k + 1),
                min(50 * (k + 1) + 50, ws.len() as int),
            ));
            assert(ws.subrange(50 * (k + 1), min(50 * (k + 1) + 50, ws.len() as int))
                =~= wtail.subrange(50 * k, min(50 * k + 50, wtail.len() as int)));
        }
        lemma_chunks_reconstruct(tail, wtail);
        assert(words_of(chunks[0]) == ws.subrange(0, 50));
        assert(chunks_words(chunks) == words_of(chunks[0]) + chunks_words(tail));
        assert(ws.subrange(0, 50) + wtail =~= ws);
    }
}

} // verus!
