//! Tokenisation and substring search over character sequences.
//!
//! A text is split into whitespace-delimited tokens by a left-to-right
//! scan; `words_of` is the mathematical model of that scan, and
//! `split_words` is the verified implementation. `contains_sub` decides
//! substring occurrence, the primitive behind the lexical retrieval
//! paths.

use vstd::prelude::*;

verus! {

/// The whitespace characters that delimit tokens.
pub open spec fn is_space(c: char) -> bool {
    c == ' ' || c == '\t' || c == '\n' || c == '\r'
}

/// Runtime test for `is_space`.
pub fn space_char(c: char) -> (r: bool)
    ensures
        r == is_space(c),
{
    c == ' ' || c == '\t' || c == '\n' || c == '\r'
}

/// Appends the pending token to the finished ones, unless it is empty.
pub open spec fn flush_word(done: Seq<Seq<char>>, cur: Seq<char>) -> Seq<Seq<char>> {
    if cur.len() == 0 {
        done
    } else {
        done.push(cur)
    }
}

/// The scan state after consuming `s`, starting from the tokens already
/// finished and the pending partial token: a space finishes the pending
/// token, any other character extends it.
pub open spec fn scan_words(s: Seq<char>, done: Seq<Seq<char>>, cur: Seq<char>) -> (Seq<
    Seq<char>,
>, Seq<char>)
    decreases s.len(),
{
    if s.len() == 0 {
        (done, cur)
    } else if is_space(s[0]) {
        scan_words(s.skip(1), flush_word(done, cur), Seq::empty())
    } else {
        scan_words(s.skip(1), done, cur.push(s[0]))
    }
}

/// The whitespace-delimited tokens of a text, in order.
pub open spec fn words_of(s: Seq<char>) -> Seq<Seq<char>> {
    let st = scan_words(s, Seq::empty(), Seq::empty());
    flush_word(st.0, st.1)
}

/// A well-formed token: nonempty and free of whitespace.
pub open spec fn good_word(w: Seq<char>) -> bool {
    w.len() > 0 && forall|j: int| 0 <= j < w.len() ==> !is_space(w[j])
}

/// Every token in the sequence is well-formed.
pub open spec fn all_good(ws: Seq<Seq<char>>) -> bool {
    forall|i: int| 0 <= i < ws.len() ==> good_word(#[trigger] ws[i])
}

/// Scanning a concatenation scans the left part first, then the right
/// part from the state the left part reached.
pub proof fn lemma_scan_concat(a: Seq<char>, b: Seq<char>, done: Seq<Seq<char>>, cur: Seq<char>)
    ensures
        scan_words(a + b, done, cur) == scan_words(
            b,
            scan_words(a, done, cur).0,
            scan_words(a, done, cur).1,
        ),
    decreases a.len(),
{
    if a.len() == 0 {
        assert(a + b =~= b);
    } else {
        assert((a + b).skip(1) =~= a.skip(1) + b);
        assert((a + b)[0] == a[0]);
        if is_space(a[0]) {
            lemma_scan_concat(a.skip(1), b, flush_word(done, cur), Seq::empty());
        } else {
            lemma_scan_concat(a.skip(1), b, done, cur.push(a[0]));
        }
    }
}

/// Scanning a whitespace-free stretch only extends the pending token.
pub proof fn lemma_scan_no_space(w: Seq<char>, done: Seq<Seq<char>>, cur: Seq<char>)
    requires
        forall|j: int| 0 <= j < w.len() ==> !is_space(w[j]),
    ensures
        scan_words(w, done, cur) == (done, cur + w),
    decreases w.len(),
{
    if w.len() == 0 {
        assert(cur + w =~= cur);
    } else {
        lemma_scan_no_space(w.skip(1), done, cur.push(w[0]));
        assert(cur.push(w[0]) + w.skip(1) =~= cur + w);
    }
}

/// The scan keeps every finished token well-formed, so every token of
/// `words_of` is nonempty and whitespace-free.
pub proof fn lemma_scan_good(s: Seq<char>, done: Seq<Seq<char>>, cur: Seq<char>)
    requires
        all_good(done),
        forall|j: int| 0 <= j < cur.len() ==> !is_space(cur[j]),
    ensures
        all_good(flush_word(scan_words(s, done, cur).0, scan_words(s, done, cur).1)),
    decreases s.len(),
{
    if s.len() == 0 {
        if cur.len() > 0 {
            assert(good_word(cur));
            assert(all_good(done.push(cur)));
        }
    } else if is_space(s[0]) {
        if cur.len() > 0 {
            assert(good_word(cur));
            assert(all_good(done.push(cur)));
        }
        lemma_scan_good(s.skip(1), flush_word(done, cur), Seq::empty());
    } else {
        assert(forall|j: int|
            0 <= j < cur.push(s[0]).len() ==> !is_space(cur.push(s[0])[j]));
        lemma_scan_good(s.skip(1), done, cur.push(s[0]));
    }
}

/// There are never more tokens than characters scanned.
pub proof fn lemma_scan_count(s: Seq<char>, done: Seq<Seq<char>>, cur: Seq<char>)
    ensures
        flush_word(scan_words(s, done, cur).0, scan_words(s, done, cur).1).len() <= done.len() + (
        if cur.len() > 0 {
            1int
        } else {
            0int
        }) + s.len(),
    decreases s.len(),
{
    if s.len() == 0 {
    } else if is_space(s[0]) {
        lemma_scan_count(s.skip(1), flush_word(done, cur), Seq::empty());
    } else {
        lemma_scan_count(s.skip(1), done, cur.push(s[0]));
    }
}

/// Every token of a text is nonempty and whitespace-free.
pub proof fn lemma_words_good(s: Seq<char>)
    ensures
        all_good(words_of(s)),
        words_of(s).len() <= s.len(),
{
    lemma_scan_good(s, Seq::empty(), Seq::empty());
    lemma_scan_count(s, Seq::empty(), Seq::empty());
}

/// One scan step: consuming one more character either flushes the
/// pending token (on a space) or extends it.
pub proof fn lemma_scan_step(pre: Seq<char>, c: char, done: Seq<Seq<char>>, cur: Seq<char>)
    requires
        scan_words(pre, Seq::empty(), Seq::empty()) == (done, cur),
    ensures
        is_space(c) ==> scan_words(pre.push(c), Seq::empty(), Seq::empty()) == (
            flush_word(done, cur),
            Seq::<char>::empty(),
        ),
        !is_space(c) ==> scan_words(pre.push(c), Seq::empty(), Seq::empty()) == (
            done,
            cur.push(c),
        ),
{
    lemma_scan_concat(pre, seq![c], Seq::empty(), Seq::empty());
    assert(pre + seq![c] =~= pre.push(c));
    assert(seq![c].skip(1) =~= Seq::<char>::empty());
    if is_space(c) {
        assert(scan_words(seq![c], done, cur) == scan_words(
            seq![c].skip(1),
            flush_word(done, cur),
            Seq::empty(),
        ));
        assert(scan_words(Seq::<char>::empty(), flush_word(done, cur), Seq::empty()) == (
            flush_word(done, cur),
            Seq::<char>::empty(),
        ));
    } else {
        assert(scan_words(seq![c], done, cur) == scan_words(seq![c].skip(1), done, cur.push(c)));
        assert(scan_words(Seq::<char>::empty(), done, cur.push(c)) == (done, cur.push(c)));
    }
}

/// Splits a text into its whitespace-delimited tokens.
pub fn split_words(s: &str) -> (words: Vec<String>)
    ensures
        words.deep_view() == words_of(s@),
        all_good(words.deep_view()),
{
    let n = s.unicode_len();
    let mut words: Vec<String> = Vec::new();
    let mut start: usize = 0;
    let mut i: usize = 0;
    while i < n
        invariant
            start <= i <= n,
            n == s@.len(),
            forall|k: int| start <= k < i ==> !is_space(s@[k]),
            scan_words(s@.take(i as int), Seq::empty(), Seq::empty()) == (
                words.deep_view(),
                s@.subrange(start as int, i as int),
            ),
        decreases n - i,
    {
        let c = s.get_char(i);
        let ghost prev_words = words.deep_view();
        let ghost prev_cur = s@.subrange(start as int, i as int);
        proof {
            assert(s@.take(i + 1) =~= s@.take(i as int).push(s@[i as int]));
            lemma_scan_step(s@.take(i as int), s@[i as int], prev_words, prev_cur);
        }
        if space_char(c) {
            if start < i {
                let w = s.substring_char(start, i);
                words.push(w.to_owned());
                proof {
                    assert(words.deep_view() =~= prev_words.push(prev_cur));
                }
            }
            start = i + 1;
            proof {
                assert(s@.subrange(start as int, i + 1) =~= Seq::<char>::empty());
            }
        } else {
            proof {
                assert(s@.subrange(start as int, i + 1) =~= prev_cur.push(s@[i as int]));
            }
        }
        i = i + 1;
    }
    proof {
        assert(s@.take(n as int) =~= s@);
    }
    if start < n {
        let ghost prev_words = words.deep_view();
        let w = s.substring_char(start, n);
        words.push(w.to_owned());
        proof {
            assert(words.deep_view() =~= prev_words.push(s@.subrange(start as int, n as int)));
        }
    }
    proof {
        lemma_words_good(s@);
    }
    words
}

/// Decides equality of two texts by their characters.
pub fn str_eq(a: &str, b: &str) -> (r: bool)
    ensures
        r == (a@ == b@),
{
    let an = a.unicode_len();
    let bn = b.unicode_len();
    if an != bn {
        return false;
    }
    let mut j: usize = 0;
    while j < an
        invariant
            an == a@.len(),
            an == b@.len(),
            j <= an,
            forall|k: int| 0 <= k < j ==> a@[k] == b@[k],
        decreases an - j,
    {
        if a.get_char(j) != b.get_char(j) {
            return false;
        }
        j = j + 1;
    }
    proof {
        assert(a@ =~= b@);
    }
    true
}

/// Whether `needle` occurs contiguously inside `hay`.
pub open spec fn seq_contains_sub(hay: Seq<char>, needle: Seq<char>) -> bool {
    exists|i: int|
        0 <= i <= hay.len() - needle.len() && #[trigger] hay.subrange(i, i + needle.len())
            == needle
}

/// Decides whether one text occurs contiguously inside another.
pub fn contains_sub(hay: &str, needle: &str) -> (r: bool)
    ensures
        r == seq_contains_sub(hay@, needle@),
{
    let hl = hay.unicode_len();
    let nl = needle.unicode_len();
    if nl > hl {
        return false;
    }
    if nl == 0 {
        proof {
            assert(hay@.subrange(0, 0 + needle@.len() as int) =~= needle@);
            assert(seq_contains_sub(hay@, needle@));
        }
        return true;
    }
    let mut i: usize = 0;
    while i <= hl - nl
        invariant
            hl == hay@.len(),
            nl == needle@.len(),
            0 < nl <= hl,
            i <= hl - nl + 1,
            forall|k: int|
                0 <= k < i ==> #[trigger] hay@.subrange(k, k + needle@.len()) != needle@,
        decreases hl - nl - i + 1,
    {
        if match_at(hay, needle, i) {
            return true;
        }
        i = i + 1;
    }
    false
}

/// Decides whether `needle` occurs in `hay` starting at position `at`.
fn match_at(hay: &str, needle: &str, at: usize) -> (r: bool)
    requires
        at + needle@.len() <= hay@.len(),
    ensures
        r == (hay@.subrange(at as int, at + needle@.len()) == needle@),
{
    let hl = hay.unicode_len();
    let nl = needle.unicode_len();
    let mut j: usize = 0;
    while j < nl
        invariant
            hl == hay@.len(),
            nl == needle@.len(),
            at + nl <= hl,
            j <= nl,
            forall|k: int| 0 <= k < j ==> hay@[at + k] == needle@[k],
        decreases nl - j,
    {
        if hay.get_char(at + j) != needle.get_char(j) {
            proof {
                let d = j as int;
                assert(hay@.subrange(at as int, at + needle@.len())[d] != needle@[d]);
            }
            return false;
        }
        j = j + 1;
    }
    proof {
        assert(hay@.subrange(at as int, at + needle@.len()) =~= needle@);
    }
    true
}

} // verus!
