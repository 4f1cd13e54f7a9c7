//! Keyword-region extraction: locate the keyword-introduced line fragments of
//! an arbitrary text, and derive either a compacted extract or a
//! position-preserving filtered copy whose line/column coordinates match the
//! original text byte for byte.
//!
//! A line fragment is recognized when, somewhere in a line, one of a fixed,
//! ordered set of keyword spellings occurs; the fragment runs from the last
//! such occurrence on the line to the end of the line. A line holding several
//! keyword spellings therefore contributes only its last occurrence: this is
//! deliberate, documented behaviour of the scan.

use crate::feature::{Feature, Scenario, Span};
use vstd::prelude::*;

verus! {

/// Where one keyword-introduced fragment sits in a source text: the byte
/// range of the keyword spelling itself, and the byte range of the trailing
/// description that runs to the end of the line. The keyword range always
/// ends where the description range starts.
#[derive(Clone, Copy, PartialEq, Eq, Structural, Debug)]
pub struct KeywordSpan {
    pub keyword: Span,
    pub description: Span,
}

/// How many keyword spellings the scan recognizes.
pub open spec fn num_keywords() -> int {
    13
}

/// The recognized keyword spellings, as byte strings, in match order.
pub open spec fn keyword_seq(k: int) -> Seq<u8> {
    if k == 0 {
        seq!['G' as u8, 'i' as u8, 'v' as u8, 'e' as u8, 'n' as u8]
    } else if k == 1 {
        seq!['W' as u8, 'h' as u8, 'e' as u8, 'n' as u8]
    } else if k == 2 {
        seq!['T' as u8, 'h' as u8, 'e' as u8, 'n' as u8]
    } else if k == 3 {
        seq!['A' as u8, 'n' as u8, 'd' as u8]
    } else if k == 4 {
        seq!['B' as u8, 'u' as u8, 't' as u8]
    } else if k == 5 {
        seq!['S' as u8, 'c' as u8, 'e' as u8, 'n' as u8, 'a' as u8, 'r' as u8, 'i' as u8, 'o' as u8]
    } else if k == 6 {
        seq!['B' as u8, 'a' as u8, 'c' as u8, 'k' as u8, 'g' as u8, 'r' as u8, 'o' as u8, 'u' as u8, 'n' as u8, 'd' as u8]
    } else if k == 7 {
        seq!['F' as u8, 'e' as u8, 'a' as u8, 't' as u8, 'u' as u8, 'r' as u8, 'e' as u8]
    } else if k == 8 {
        seq!['I' as u8, 'n' as u8, ' ' as u8, 'o' as u8, 'r' as u8, 'd' as u8, 'e' as u8, 'r' as u8, ' ' as u8, 't' as u8, 'o' as u8]
    } else if k == 9 {
        seq!['A' as u8, 's' as u8, ' ' as u8, 'a' as u8]
    } else if k == 10 {
        seq!['I' as u8, ' ' as u8, 'w' as u8, 'a' as u8, 'n' as u8, 't' as u8, ' ' as u8, 't' as u8, 'o' as u8]
    } else if k == 11 {
        seq!['I' as u8, ' ' as u8, 'n' as u8, 'e' as u8, 'e' as u8, 'd' as u8, ' ' as u8, 't' as u8, 'o' as u8]
    } else if k == 12 {
        seq!['S' as u8, 'o' as u8, ' ' as u8, 't' as u8, 'h' as u8, 'a' as u8, 't' as u8]
    } else {
        Seq::empty()
    }
}

/// Builds the keyword table for one extraction call.
fn keywords() -> (r: Vec<Vec<u8>>)
    ensures
        r@.len() == num_keywords(),
        forall|k: int| 0 <= k < num_keywords() ==> r@[k]@ == keyword_seq(k),
{
    let mut r: Vec<Vec<u8>> = Vec::new();
    let mut w0: Vec<u8> = Vec::new();
    w0.push('G' as u8);
    w0.push('i' as u8);
    w0.push('v' as u8);
    w0.push('e' as u8);
    w0.push('n' as u8);
    proof { assert(w0@ =~= keyword_seq(0)); }
    r.push(w0);
    let mut w1: Vec<u8> = Vec::new();
    w1.push('W' as u8);
    w1.push('h' as u8);
    w1.push('e' as u8);
    w1.push('n' as u8);
    proof { assert(w1@ =~= keyword_seq(1)); }
    r.push(w1);
    let mut w2: Vec<u8> = Vec::new();
    w2.push('T' as u8);
    w2.push('h' as u8);
    w2.push('e' as u8);
    w2.push('n' as u8);
    proof { assert(w2@ =~= keyword_seq(2)); }
    r.push(w2);
    let mut w3: Vec<u8> = Vec::new();
    w3.push('A' as u8);
    w3.push('n' as u8);
    w3.push('d' as u8);
    proof { assert(w3@ =~= keyword_seq(3)); }
    r.push(w3);
    let mut w4: Vec<u8> = Vec::new();
    w4.push('B' as u8);
    w4.push('u' as u8);
    w4.push('t' as u8);
    proof { assert(w4@ =~= keyword_seq(4)); }
    r.push(w4);
    let mut w5: Vec<u8> = Vec::new();
    w5.push('S' as u8);
    w5.push('c' as u8);
    w5.push('e' as u8);
    w5.push('n' as u8);
    w5.push('a' as u8);
    w5.push('r' as u8);
    w5.push('i' as u8);
    w5.push('o' as u8);
    proof { assert(w5@ =~= keyword_seq(5)); }
    r.push(w5);
    let mut w6: Vec<u8> = Vec::new();
    w6.push('B' as u8);
    w6.push('a' as u8);
    w6.push('c' as u8);
    w6.push('k' as u8);
    w6.push('g' as u8);
    w6.push('r' as u8);
    w6.push('o' as u8);
    w6.push('u' as u8);
    w6.push('n' as u8);
    w6.push('d' as u8);
    proof { assert(w6@ =~= keyword_seq(6)); }
    r.push(w6);
    let mut w7: Vec<u8> = Vec::new();
    w7.push('F' as u8);
    w7.push('e' as u8);
    w7.push('a' as u8);
    w7.push('t' as u8);
    w7.push('u' as u8);
    w7.push('r' as u8);
    w7.push('e' as u8);
    proof { assert(w7@ =~= keyword_seq(7)); }
    r.push(w7);
    let mut w8: Vec<u8> = Vec::new();
    w8.push('I' as u8);
    w8.push('n' as u8);
    w8.push(' ' as u8);
    w8.push('o' as u8);
    w8.push('r' as u8);
    w8.push('d' as u8);
    w8.push('e' as u8);
    w8.push('r' as u8);
    w8.push(' ' as u8);
    w8.push('t' as u8);
    w8.push('o' as u8);
    proof { assert(w8@ =~= keyword_seq(8)); }
    r.push(w8);
    let mut w9: Vec<u8> = Vec::new();
    w9.push('A' as u8);
    w9.push('s' as u8);
    w9.push(' ' as u8);
    w9.push('a' as u8);
    proof { assert(w9@ =~= keyword_seq(9)); }
    r.push(w9);
    let mut w10: Vec<u8> = Vec::new();
    w10.push('I' as u8);
    w10.push(' ' as u8);
    w10.push('w' as u8);
    w10.push('a' as u8);
    w10.push('n' as u8);
    w10.push('t' as u8);
    w10.push(' ' as u8);
    w10.push('t' as u8);
    w10.push('o' as u8);
    proof { assert(w10@ =~= keyword_seq(10)); }
    r.push(w10);
    let mut w11: Vec<u8> = Vec::new();
    w11.push('I' as u8);
    w11.push(' ' as u8);
    w11.push('n' as u8);
    w11.push('e' as u8);
    w11.push('e' as u8);
    w11.push('d' as u8);
    w11.push(' ' as u8);
    w11.push('t' as u8);
    w11.push('o' as u8);
    proof { assert(w11@ =~= keyword_seq(11)); }
    r.push(w11);
    let mut w12: Vec<u8> = Vec::new();
    w12.push('S' as u8);
    w12.push('o' as u8);
    w12.push(' ' as u8);
    w12.push('t' as u8);
    w12.push('h' as u8);
    w12.push('a' as u8);
    w12.push('t' as u8);
    proof { assert(w12@ =~= keyword_seq(12)); }
    r.push(w12);
    proof {
        assert forall|k: int| 0 <= k < num_keywords() implies r@[k]@ == keyword_seq(k) by {
            assert(r@[0]@ == keyword_seq(0));
            assert(r@[1]@ == keyword_seq(1));
            assert(r@[2]@ == keyword_seq(2));
            assert(r@[3]@ == keyword_seq(3));
            assert(r@[4]@ == keyword_seq(4));
            assert(r@[5]@ == keyword_seq(5));
            assert(r@[6]@ == keyword_seq(6));
            assert(r@[7]@ == keyword_seq(7));
            assert(r@[8]@ == keyword_seq(8));
            assert(r@[9]@ == keyword_seq(9));
            assert(r@[10]@ == keyword_seq(10));
            assert(r@[11]@ == keyword_seq(11));
            assert(r@[12]@ == keyword_seq(12));
        }
    }
    r
}

/// Keyword spelling `k` occurs in `text` at position `q`.
pub open spec fn keyword_match_at(text: Seq<u8>, q: int, k: int) -> bool {
    &&& 0 <= q
    &&& q + keyword_seq(k).len() <= text.len()
    &&& text.subrange(q, q + keyword_seq(k).len() as int) == keyword_seq(k)
}

/// Some recognized keyword spelling occurs at position `q`.
pub open spec fn any_keyword_at(text: Seq<u8>, q: int) -> bool {
    exists|k: int| 0 <= k < num_keywords() && keyword_match_at(text, q, k)
}

/// The first keyword spelling, in match order at or after `k`, that occurs
/// at position `q`; `num_keywords()` when none does.
pub open spec fn first_keyword_from(text: Seq<u8>, q: int, k: int) -> int
    decreases num_keywords() - k,
    when 0 <= k <= num_keywords()
{
    if k >= num_keywords() {
        num_keywords()
    } else if keyword_match_at(text, q, k) {
        k
    } else {
        first_keyword_from(text, q, k + 1)
    }
}

/// Length of the keyword spelling matched at position `q` (the first in
/// match order); zero when none matches there.
pub open spec fn keyword_len_at(text: Seq<u8>, q: int) -> int {
    keyword_seq(first_keyword_from(text, q, 0)).len() as int
}

/// The end of the line that starts at or contains position `i`: the position
/// of the first newline byte at or after `i`, or the text length.
pub open spec fn line_end(text: Seq<u8>, i: int) -> int
    decreases text.len() - i,
    when 0 <= i <= text.len()
{
    if i >= text.len() {
        text.len() as int
    } else if text[i] == 10 {
        i
    } else {
        line_end(text, i + 1)
    }
}

/// The last position in `[lo, hi)` where a keyword spelling occurs, or
/// `lo - 1` when none does.
pub open spec fn last_keyword_in(text: Seq<u8>, lo: int, hi: int) -> int
    decreases hi - lo,
    when lo <= hi
{
    if hi <= lo {
        lo - 1
    } else if any_keyword_at(text, hi - 1) {
        hi - 1
    } else {
        last_keyword_in(text, lo, hi - 1)
    }
}

/// The ordered keyword spans of the text from scan position `i` (a line
/// start) onward: every line that holds a keyword occurrence contributes one
/// span, from the last occurrence on that line to the line's end.
pub open spec fn spec_spans_from(text: Seq<u8>, i: int) -> Seq<KeywordSpan>
    decreases text.len() - i,
    when 0 <= i <= text.len()
    via spec_spans_from_decreases
{
    if i >= text.len() {
        Seq::empty()
    } else {
        let le = line_end(text, i);
        let next = if le < text.len() {
            le + 1
        } else {
            text.len() as int
        };
        let q = last_keyword_in(text, i, le);
        let rest = spec_spans_from(text, next);
        if q >= i {
            seq![
                KeywordSpan {
                    keyword: Span { start: q as usize, end: (q + keyword_len_at(text, q)) as usize },
                    description: Span {
                        start: (q + keyword_len_at(text, q)) as usize,
                        end: le as usize,
                    },
                },
            ] + rest
        } else {
            rest
        }
    }
}

#[via_fn]
proof fn spec_spans_from_decreases(text: Seq<u8>, i: int) {
    if 0 <= i < text.len() {
        lemma_line_end(text, i);
    }
}

/// The keyword spans of a whole text, in ascending order.
pub open spec fn spec_keyword_spans(text: Seq<u8>) -> Seq<KeywordSpan> {
    spec_spans_from(text, 0)
}

/// `line_end` points at the first newline at or after `i`, or at the end.
pub proof fn lemma_line_end(text: Seq<u8>, i: int)
    requires
        0 <= i <= text.len(),
    ensures
        i <= line_end(text, i) <= text.len(),
        forall|j: int| i <= j < line_end(text, i) ==> text[j] != 10,
        line_end(text, i) < text.len() ==> text[line_end(text, i)] == 10,
    decreases text.len() - i,
{
    if i < text.len() && text[i] != 10 {
        lemma_line_end(text, i + 1);
    }
}

/// A position-by-position characterization pins `line_end` down uniquely.
pub proof fn lemma_line_end_unique(text: Seq<u8>, i: int, le: int)
    requires
        0 <= i <= le <= text.len(),
        forall|j: int| i <= j < le ==> text[j] != 10,
        le < text.len() ==> text[le] == 10,
    ensures
        line_end(text, i) == le,
    decreases le - i,
{
    if i < le {
        lemma_line_end_unique(text, i + 1, le);
    }
}

/// What `last_keyword_in` returns: either `lo - 1` and no keyword occurs in
/// `[lo, hi)`, or the greatest position in `[lo, hi)` where one occurs.
pub proof fn lemma_last_keyword_in(text: Seq<u8>, lo: int, hi: int)
    requires
        lo <= hi,
    ensures
        lo - 1 <= last_keyword_in(text, lo, hi) < hi || (lo == hi && last_keyword_in(
            text,
            lo,
            hi,
        ) == lo - 1),
        last_keyword_in(text, lo, hi) >= lo ==> any_keyword_at(text, last_keyword_in(text, lo, hi)),
        forall|p: int| last_keyword_in(text, lo, hi) < p < hi ==> !any_keyword_at(text, p),
    decreases hi - lo,
{
    if hi > lo && !any_keyword_at(text, hi - 1) {
        lemma_last_keyword_in(text, lo, hi - 1);
    }
}

/// No keyword spelling contains a newline byte.
pub proof fn lemma_keyword_no_newline(k: int, j: int)
    requires
        0 <= k < num_keywords(),
        0 <= j < keyword_seq(k).len(),
    ensures
        keyword_seq(k)[j] != 10,
{
}

/// Every keyword spelling is non-empty.
pub proof fn lemma_keyword_nonempty(k: int)
    requires
        0 <= k < num_keywords(),
    ensures
        keyword_seq(k).len() > 0,
{
}

/// A keyword occurrence inside a line stays strictly inside it: the spelling
/// holds no newline, and the line's end is the first newline after its start.
pub proof fn lemma_keyword_fits_line(text: Seq<u8>, i: int, q: int)
    requires
        0 <= i <= text.len(),
        i <= q < line_end(text, i),
        any_keyword_at(text, q),
    ensures
        0 < keyword_len_at(text, q),
        q + keyword_len_at(text, q) <= line_end(text, i),
{
    lemma_line_end(text, i);
    let le = line_end(text, i);
    let k0 = choose|k: int| 0 <= k < num_keywords() && keyword_match_at(text, q, k);
    lemma_first_keyword_matches(text, q);
    let k = first_keyword_from(text, q, 0);
    lemma_keyword_nonempty(k);
    let klen = keyword_seq(k).len() as int;
    if q + klen > le {
        assert(le < text.len());
        assert(text[le] == 10);
        assert(text.subrange(q, q + klen)[le - q] == text[le]);
        lemma_keyword_no_newline(k, le - q);
    }
}

/// When some keyword occurs at `q`, `first_keyword_from` finds one.
pub proof fn lemma_first_keyword_matches(text: Seq<u8>, q: int)
    requires
        any_keyword_at(text, q),
    ensures
        0 <= first_keyword_from(text, q, 0) < num_keywords(),
        keyword_match_at(text, q, first_keyword_from(text, q, 0)),
{
    let kw = choose|k: int| 0 <= k < num_keywords() && keyword_match_at(text, q, k);
    lemma_first_keyword_from_bound(text, q, 0, kw);
}

proof fn lemma_first_keyword_from_bound(text: Seq<u8>, q: int, k: int, kw: int)
    requires
        0 <= k <= kw < num_keywords(),
        keyword_match_at(text, q, kw),
    ensures
        k <= first_keyword_from(text, q, k) <= kw,
        keyword_match_at(text, q, first_keyword_from(text, q, k)),
    decreases num_keywords() - k,
{
    if !keyword_match_at(text, q, k) {
        lemma_first_keyword_from_bound(text, q, k + 1, kw);
    }
}

/// Does the byte string `kw` occur in `text` at position `q`?
fn bytes_match_at(text: &[u8], q: usize, kw: &Vec<u8>) -> (r: bool)
    requires
        q <= text@.len(),
    ensures
        r == (q + kw@.len() <= text@.len() && text@.subrange(q as int, q + kw@.len() as int)
            == kw@),
{
    if kw.len() > text.len() - q {
        return false;
    }
    let mut j: usize = 0;
    while j < kw.len()
        invariant
            text@.len() <= usize::MAX,
            q + kw@.len() <= text@.len(),
            0 <= j <= kw@.len(),
            forall|t: int| 0 <= t < j ==> text@[q + t] == kw@[t],
        decreases kw@.len() - j,
    {
        if text[q + j] != kw[j] {
            proof {
                assert(text@.subrange(q as int, q + kw@.len() as int)[j as int] == text@[q + j]);
            }
            return false;
        }
        j += 1;
    }
    proof {
        assert(text@.subrange(q as int, q + kw@.len() as int) =~= kw@);
    }
    true
}

/// `first_keyword_from` starting at `j` lands on `k` when `k` is the first
/// spelling at or after `j` that occurs at `q`.
proof fn lemma_first_keyword_from_step(text: Seq<u8>, q: int, j: int, k: int)
    requires
        0 <= j <= k < num_keywords(),
        keyword_match_at(text, q, k),
        forall|t: int| j <= t < k ==> !keyword_match_at(text, q, t),
    ensures
        first_keyword_from(text, q, j) == k,
    decreases k - j,
{
    if j < k {
        lemma_first_keyword_from_step(text, q, j + 1, k);
    }
}

/// The length of the first keyword spelling, in match order, that occurs in
/// `text` at position `q`; `None` when none does.
fn match_keyword_at(text: &[u8], q: usize, kws: &Vec<Vec<u8>>) -> (r: Option<usize>)
    requires
        q <= text@.len(),
        kws@.len() == num_keywords(),
        forall|k: int| 0 <= k < num_keywords() ==> kws@[k]@ == keyword_seq(k),
    ensures
        match r {
            Option::Some(l) => any_keyword_at(text@, q as int) && l == keyword_len_at(
                text@,
                q as int,
            ),
            Option::None => !any_keyword_at(text@, q as int),
        },
{
    let mut k: usize = 0;
    while k < kws.len()
        invariant
            0 <= k <= num_keywords(),
            q <= text@.len(),
            kws@.len() == num_keywords(),
            forall|t: int| 0 <= t < num_keywords() ==> kws@[t]@ == keyword_seq(t),
            forall|t: int| 0 <= t < k ==> !keyword_match_at(text@, q as int, t),
        decreases kws@.len() - k,
    {
        if bytes_match_at(text, q, &kws[k]) {
            proof {
                assert(keyword_match_at(text@, q as int, k as int));
                lemma_first_keyword_from_step(text@, q as int, 0, k as int);
            }
            return Option::Some(kws[k].len());
        }
        k += 1;
    }
    proof {
        assert(!any_keyword_at(text@, q as int)) by {
            if any_keyword_at(text@, q as int) {
                let t = choose|t: int|
                    0 <= t < num_keywords() && keyword_match_at(text@, q as int, t);
                assert(!keyword_match_at(text@, q as int, t));
            }
        }
    }
    Option::None
}

/// Scans the text line by line and records, for every line holding a keyword
/// occurrence, the span of the last occurrence on that line together with the
/// trailing description up to the line's end. Spans come out in ascending,
/// non-overlapping order.
pub fn find_gherkin_text(text: &[u8]) -> (r: Vec<KeywordSpan>)
    ensures
        r@ == spec_keyword_spans(text@),
{
    let kws = keywords();
    let mut r: Vec<KeywordSpan> = Vec::new();
    let mut i: usize = 0;
    while i < text.len()
        invariant
            0 <= i <= text@.len(),
            kws@.len() == num_keywords(),
            forall|k: int| 0 <= k < num_keywords() ==> kws@[k]@ == keyword_seq(k),
            spec_keyword_spans(text@) == r@ + spec_spans_from(text@, i as int),
        decreases text@.len() - i,
    {
        let ghost gi = i as int;
        let ghost r_before = r@;
        let mut le: usize = i;
        while le < text.len() && text[le] != 10
            invariant
                i <= le <= text@.len(),
                forall|j: int| i <= j < le ==> text@[j] != 10,
            decreases text@.len() - le,
        {
            le += 1;
        }
        proof {
            lemma_line_end_unique(text@, gi, le as int);
        }
        let mut q: usize = 0;
        let mut qlen: usize = 0;
        let mut found: bool = false;
        let mut j: usize = i;
        while j < le
            invariant
                i <= j <= le <= text@.len(),
                kws@.len() == num_keywords(),
                forall|k: int| 0 <= k < num_keywords() ==> kws@[k]@ == keyword_seq(k),
                found ==> i <= q < j && any_keyword_at(text@, q as int) && qlen
                    == keyword_len_at(text@, q as int),
                found ==> forall|p: int| q < p < j ==> !any_keyword_at(text@, p),
                !found ==> forall|p: int| i <= p < j ==> !any_keyword_at(text@, p),
            decreases le - j,
        {
            match match_keyword_at(text, j, &kws) {
                Option::Some(l) => {
                    q = j;
                    qlen = l;
                    found = true;
                },
                Option::None => {},
            }
            j += 1;
        }
        proof {
            lemma_last_keyword_in(text@, gi, le as int);
            let lq = last_keyword_in(text@, gi, le as int);
            if found {
                assert(lq == q as int);
            } else {
                assert(lq < gi);
            }
        }
        if found {
            proof {
                lemma_keyword_fits_line(text@, gi, q as int);
            }
            r.push(
                KeywordSpan {
                    keyword: Span { start: q, end: q + qlen },
                    description: Span { start: q + qlen, end: le },
                },
            );
        }
        if le < text.len() {
            i = le + 1;
        } else {
            i = le;
        }
        proof {
            let rest = spec_spans_from(text@, i as int);
            if found {
                assert(spec_spans_from(text@, gi) == seq![
                    KeywordSpan {
                        keyword: Span { start: q, end: (q + qlen) as usize },
                        description: Span { start: (q + qlen) as usize, end: le },
                    },
                ] + rest);
                assert(r_before + (seq![
                    KeywordSpan {
                        keyword: Span { start: q, end: (q + qlen) as usize },
                        description: Span { start: (q + qlen) as usize, end: le },
                    },
                ] + rest) =~= r@ + rest);
            } else {
                assert(spec_spans_from(text@, gi) == rest);
            }
        }
    }
    proof {
        assert(r@ =~= spec_keyword_spans(text@));
    }
    r
}

/// One keyword span is internally ordered and lies within a text of `size`
/// bytes: keyword range, then description range, end to start.
pub open spec fn span_pair_wf(s: KeywordSpan, size: int) -> bool {
    &&& s.keyword.start <= s.keyword.end
    &&& s.keyword.end <= s.description.start
    &&& s.description.start <= s.description.end
    &&& s.description.end <= size
}

/// Every span is well-formed and they stand in ascending, non-overlapping
/// order.
pub open spec fn spans_wf(spans: Seq<KeywordSpan>, size: int) -> bool {
    &&& forall|i: int| 0 <= i < spans.len() ==> span_pair_wf(#[trigger] spans[i], size)
    &&& forall|i: int|
        0 <= i < spans.len() - 1 ==> (#[trigger] spans[i]).description.end <= spans[i
            + 1].keyword.start
}

/// The spans the scan returns are well-formed, ordered, and start no earlier
/// than the scan position.
pub proof fn lemma_spec_spans_wf(text: Seq<u8>, i: int)
    requires
        0 <= i <= text.len(),
        text.len() <= usize::MAX,
    ensures
        spans_wf(spec_spans_from(text, i), text.len() as int),
        forall|t: int|
            0 <= t < spec_spans_from(text, i).len() ==> i <= (#[trigger] spec_spans_from(
                text,
                i,
            )[t]).keyword.start,
    decreases text.len() - i,
{
    if i < text.len() {
        lemma_line_end(text, i);
        let le = line_end(text, i);
        let next = if le < text.len() {
            le + 1
        } else {
            text.len() as int
        };
        lemma_spec_spans_wf(text, next);
        lemma_last_keyword_in(text, i, le);
        let q = last_keyword_in(text, i, le);
        let rest = spec_spans_from(text, next);
        if q >= i {
            lemma_keyword_fits_line(text, i, q);
            let klen = keyword_len_at(text, q);
            let head = KeywordSpan {
                keyword: Span { start: q as usize, end: (q + klen) as usize },
                description: Span { start: (q + klen) as usize, end: le as usize },
            };
            let spans = spec_spans_from(text, i);
            assert(spans == seq![head] + rest);
            assert(span_pair_wf(head, text.len() as int));
            assert forall|t: int| 0 <= t < spans.len() implies span_pair_wf(
                #[trigger] spans[t],
                text.len() as int,
            ) by {
                if t > 0 {
                    assert(spans[t] == rest[t - 1]);
                }
            }
            assert forall|t: int| 0 <= t < spans.len() - 1 implies (
            #[trigger] spans[t]).description.end <= spans[t + 1].keyword.start by {
                if t == 0 {
                    assert(spans[1] == rest[0]);
                    assert(next <= rest[0].keyword.start);
                } else {
                    assert(spans[t] == rest[t - 1]);
                    assert(spans[t + 1] == rest[t]);
                }
            }
            assert forall|t: int| 0 <= t < spans.len() implies i <= (
            #[trigger] spans[t]).keyword.start by {
                if t > 0 {
                    assert(spans[t] == rest[t - 1]);
                    assert(next <= rest[t - 1].keyword.start);
                }
            }
        } else {
            let spans = spec_spans_from(text, i);
            assert(spans == rest);
            assert forall|t: int| 0 <= t < spans.len() implies i <= (
            #[trigger] spans[t]).keyword.start by {
                assert(next <= rest[t].keyword.start);
            }
        }
    }
}

/// The byte ranges of `[idx, size)` that no span covers, walking the spans
/// in order with a cursor starting at `idx`: a gap before each keyword range
/// the cursor has not reached, a gap between abutting keyword and description
/// ranges when they do not touch, and a final gap after the last span.
/// Zero-length gaps are suppressed.
pub open spec fn spec_gaps_from(spans: Seq<KeywordSpan>, idx: int, size: int) -> Seq<Span>
    decreases spans.len(),
{
    if spans.len() == 0 {
        if idx != size {
            seq![Span { start: idx as usize, end: size as usize }]
        } else {
            Seq::empty()
        }
    } else {
        let s = spans[0];
        let g1: Seq<Span> = if idx != s.keyword.start {
            seq![Span { start: idx as usize, end: s.keyword.start }]
        } else {
            Seq::empty()
        };
        let g2: Seq<Span> = if s.keyword.end != s.description.start {
            seq![Span { start: s.keyword.end, end: s.description.start }]
        } else {
            Seq::empty()
        };
        g1 + g2 + spec_gaps_from(spans.drop_first(), s.description.end as int, size)
    }
}

/// The gaps of a whole text: complement of the spans over `[0, size)`.
pub open spec fn spec_gaps(spans: Seq<KeywordSpan>, size: int) -> Seq<Span> {
    spec_gaps_from(spans, 0, size)
}

/// Computes the ranges of the text where no keyword span sits, in order:
/// exactly where the filtered copy will be blanked to whitespace.
pub fn opposite_range_text(gherkin_locs: &Vec<KeywordSpan>, text_size: usize) -> (r: Vec<Span>)
    requires
        spans_wf(gherkin_locs@, text_size as int),
    ensures
        r@ == spec_gaps(gherkin_locs@, text_size as int),
{
    let mut index: usize = 0;
    let mut acc: Vec<Span> = Vec::new();
    let mut n: usize = 0;
    proof {
        assert(gherkin_locs@.skip(0) =~= gherkin_locs@);
    }
    while n < gherkin_locs.len()
        invariant
            spans_wf(gherkin_locs@, text_size as int),
            0 <= n <= gherkin_locs@.len(),
            n == 0 ==> index == 0,
            n > 0 ==> index == gherkin_locs@[n - 1].description.end,
            index <= text_size,
            spec_gaps(gherkin_locs@, text_size as int) == acc@ + spec_gaps_from(
                gherkin_locs@.skip(n as int),
                index as int,
                text_size as int,
            ),
        decreases gherkin_locs@.len() - n,
    {
        let ghost acc_before = acc@;
        let ghost idx_before = index as int;
        let s = gherkin_locs[n];
        if index != s.keyword.start {
            acc.push(Span { start: index, end: s.keyword.start });
        }
        if s.keyword.end != s.description.start {
            acc.push(Span { start: s.keyword.end, end: s.description.start });
        }
        index = s.description.end;
        n += 1;
        proof {
            let tail = gherkin_locs@.skip((n - 1) as int);
            assert(tail[0] == gherkin_locs@[n - 1]);
            assert(tail.drop_first() =~= gherkin_locs@.skip(n as int));
            let g1: Seq<Span> = if idx_before != s.keyword.start {
                seq![Span { start: idx_before as usize, end: s.keyword.start }]
            } else {
                Seq::empty()
            };
            let g2: Seq<Span> = if s.keyword.end != s.description.start {
                seq![Span { start: s.keyword.end, end: s.description.start }]
            } else {
                Seq::empty()
            };
            assert(spec_gaps_from(tail, idx_before, text_size as int) == g1 + g2
                + spec_gaps_from(
                gherkin_locs@.skip(n as int),
                s.description.end as int,
                text_size as int,
            ));
            assert(acc@ =~= acc_before + g1 + g2);
            assert(acc_before + g1 + g2 + spec_gaps_from(
                gherkin_locs@.skip(n as int),
                index as int,
                text_size as int,
            ) =~= acc_before + (g1 + g2 + spec_gaps_from(
                gherkin_locs@.skip(n as int),
                index as int,
                text_size as int,
            )));
        }
    }
    let ghost acc_before = acc@;
    let ghost idx_before = index as int;
    if index != text_size {
        acc.push(Span { start: index, end: text_size });
    }
    proof {
        assert(gherkin_locs@.skip(gherkin_locs@.len() as int) =~= Seq::<KeywordSpan>::empty());
        assert(spec_gaps_from(
            gherkin_locs@.skip(gherkin_locs@.len() as int),
            idx_before,
            text_size as int,
        ) == if idx_before != text_size as int {
            seq![Span { start: idx_before as usize, end: text_size }]
        } else {
            Seq::<Span>::empty()
        });
        assert(acc@ =~= spec_gaps(gherkin_locs@, text_size as int));
    }
    acc
}

/// Tiling law: for any text, the keyword spans the scan finds and the gaps
/// computed from them partition `[0, text.len())` — every position lies on
/// exactly one side, and each side is ascending and non-overlapping.
pub proof fn lemma_spans_gaps_partition(text: Seq<u8>)
    requires
        text.len() <= usize::MAX,
    ensures
        spans_wf(spec_keyword_spans(text), text.len() as int),
        gaps_wf(spec_gaps(spec_keyword_spans(text), text.len() as int), 0, text.len() as int),
        forall|x: int|
            0 <= x < text.len() ==> (covered_by_spans(spec_keyword_spans(text), x)
                <==> !covered_by_gaps(
                spec_gaps(spec_keyword_spans(text), text.len() as int),
                x,
            )),
{
    lemma_spec_spans_wf(text, 0);
    lemma_tiling_from(spec_keyword_spans(text), 0, text.len() as int);
}

/// The byte the position-preserving filter keeps at position `i`: newline
/// bytes stay, keyword-span content stays, every other byte becomes an ASCII
/// space.
pub open spec fn filtered_byte(text: Seq<u8>, i: int) -> u8 {
    if text[i] == 10 {
        10u8
    } else if covered_by_spans(spec_keyword_spans(text), i) {
        text[i]
    } else {
        32u8
    }
}

/// Produces a copy of the text of identical length and identical newline
/// positions in which every byte outside the keyword spans is replaced by a
/// space. Line/column coordinates of all retained keyword content therefore
/// equal those of the original text: the output is safe to hand to a
/// position-sensitive parser.
pub fn filter_gherkin_text(text: &[u8]) -> (r: Vec<u8>)
    ensures
        r@.len() == text@.len(),
        forall|i: int| 0 <= i < text@.len() ==> r@[i] == filtered_byte(text@, i),
        forall|i: int| 0 <= i < text@.len() ==> ((text@[i] == 10) <==> (r@[i] == 10)),
{
    let text_len = text.len();
    let gherkin_locs = find_gherkin_text(text);
    proof {
        lemma_spans_gaps_partition(text@);
    }
    let nongherkin_locs = opposite_range_text(&gherkin_locs, text_len);
    let mut filled_text: Vec<u8> = Vec::new();
    let mut i: usize = 0;
    while i < text.len()
        invariant
            i <= text@.len(),
            filled_text@.len() == i,
            forall|j: int| 0 <= j < i ==> filled_text@[j] == text@[j],
        decreases text@.len() - i,
    {
        filled_text.push(text[i]);
        i += 1;
    }
    let ghost gaps = nongherkin_locs@;
    let mut g: usize = 0;
    proof {
        assert(gaps.take(0) =~= Seq::<Span>::empty());
    }
    while g < nongherkin_locs.len()
        invariant
            text@.len() <= usize::MAX,
            filled_text@.len() == text@.len(),
            gaps == nongherkin_locs@,
            gaps_wf(gaps, 0, text@.len() as int),
            g <= gaps.len(),
            forall|j: int|
                0 <= j < text@.len() ==> filled_text@[j] == (if covered_by_gaps(
                    gaps.take(g as int),
                    j,
                ) {
                    32u8
                } else {
                    text@[j]
                }),
        decreases gaps.len() - g,
    {
        let gap = nongherkin_locs[g];
        let ghost entry = filled_text@;
        let mut j: usize = gap.start;
        while j < gap.end
            invariant
                gap.start <= j <= gap.end,
                gap.end <= text@.len(),
                filled_text@.len() == text@.len(),
                forall|x: int|
                    0 <= x < text@.len() ==> filled_text@[x] == (if gap.start <= x < j {
                        32u8
                    } else {
                        entry[x]
                    }),
            decreases gap.end - j,
        {
            filled_text.set(j, 32);
            j += 1;
        }
        g += 1;
        proof {
            assert(gaps.take(g as int) =~= gaps.take((g - 1) as int) + seq![gap]);
            assert forall|x: int| 0 <= x < text@.len() implies filled_text@[x] == (
            if covered_by_gaps(gaps.take(g as int), x) {
                32u8
            } else {
                text@[x]
            }) by {
                lemma_covered_gaps_concat(gaps.take((g - 1) as int), seq![gap], x);
                if covered_by_gaps(seq![gap], x) {
                    assert(in_span(seq![gap][0], x));
                }
                if in_span(gap, x) {
                    assert(seq![gap][0] == gap);
                    assert(in_span(seq![gap][0], x));
                    assert(covered_by_gaps(seq![gap], x));
                }
            }
        }
    }
    proof {
        assert(gaps.take(gaps.len() as int) =~= gaps);
    }
    let mut i: usize = 0;
    while i < text.len()
        invariant
            text@.len() <= usize::MAX,
            i <= text@.len(),
            filled_text@.len() == text@.len(),
            gaps == spec_gaps(spec_keyword_spans(text@), text@.len() as int),
            forall|j: int|
                i <= j < text@.len() ==> filled_text@[j] == (if covered_by_gaps(gaps, j) {
                    32u8
                } else {
                    text@[j]
                }),
            forall|j: int| 0 <= j < i ==> filled_text@[j] == filtered_byte(text@, j),
        decreases text@.len() - i,
    {
        proof {
            lemma_spans_gaps_partition(text@);
            if text@[i as int] != 10 {
                assert(covered_by_spans(spec_keyword_spans(text@), i as int) <==> !covered_by_gaps(
                    gaps,
                    i as int,
                ));
            }
        }
        if text[i] == 10 {
            filled_text.set(i, 10);
        }
        i += 1;
    }
    filled_text
}

/// The compacted extract of a text under its spans: for each span in order,
/// the keyword bytes, then the description bytes, then one newline.
pub open spec fn spec_compact(text: Seq<u8>, spans: Seq<KeywordSpan>) -> Seq<u8>
    decreases spans.len(),
{
    if spans.len() == 0 {
        Seq::empty()
    } else {
        text.subrange(spans[0].keyword.start as int, spans[0].keyword.end as int) + text.subrange(
            spans[0].description.start as int,
            spans[0].description.end as int,
        ) + seq![10u8] + spec_compact(text, spans.drop_first())
    }
}

/// Renders every keyword-introduced fragment of the text as one statement
/// per line: keyword, description, newline. Original positions are not
/// preserved; use the position-preserving filter where they matter.
#[verifier::rlimit(60)]
pub fn extract_gherkin_text(text: &[u8]) -> (r: Vec<u8>)
    ensures
        r@ == spec_compact(text@, spec_keyword_spans(text@)),
{
    let text_len = text.len();
    let spans = find_gherkin_text(text);
    proof {
        lemma_spec_spans_wf(text@, 0);
        assert(spans@.skip(0) =~= spans@);
    }
    let mut r: Vec<u8> = Vec::new();
    let mut n: usize = 0;
    while n < spans.len()
        invariant
            spans@ == spec_keyword_spans(text@),
            spans_wf(spans@, text@.len() as int),
            n <= spans@.len(),
            spec_compact(text@, spans@) == r@ + spec_compact(text@, spans@.skip(n as int)),
        decreases spans@.len() - n,
    {
        let s = spans[n];
        proof {
            assert(span_pair_wf(spans@[n as int], text@.len() as int));
        }
        let ghost r0 = r@;
        let mut j: usize = s.keyword.start;
        while j < s.keyword.end
            invariant
                s.keyword.start <= j <= s.keyword.end,
                s.keyword.end <= text@.len(),
                text@.len() == text.len(),
                r@ == r0 + text@.subrange(s.keyword.start as int, j as int),
            decreases s.keyword.end - j,
        {
            r.push(text[j]);
            j += 1;
            proof {
                assert(text@.subrange(s.keyword.start as int, j as int) =~= text@.subrange(
                    s.keyword.start as int,
                    j - 1,
                ) + seq![text@[j - 1]]);
            }
        }
        let ghost r1 = r@;
        let mut j: usize = s.description.start;
        while j < s.description.end
            invariant
                s.description.start <= j <= s.description.end,
                s.description.end <= text@.len(),
                text@.len() == text.len(),
                r@ == r1 + text@.subrange(s.description.start as int, j as int),
            decreases s.description.end - j,
        {
            r.push(text[j]);
            j += 1;
            proof {
                assert(text@.subrange(s.description.start as int, j as int) =~= text@.subrange(
                    s.description.start as int,
                    j - 1,
                ) + seq![text@[j - 1]]);
            }
        }
        r.push(10);
        n += 1;
        proof {
            let tail = spans@.skip((n - 1) as int);
            assert(tail[0] == spans@[n - 1]);
            assert(tail.drop_first() =~= spans@.skip(n as int));
            let a = text@.subrange(s.keyword.start as int, s.keyword.end as int);
            let b = text@.subrange(s.description.start as int, s.description.end as int);
            assert(text@.subrange(s.keyword.start as int, s.keyword.start as int) =~= Seq::<
                u8,
            >::empty());
            assert(text@.subrange(s.description.start as int, s.description.start as int) =~= Seq::<
                u8,
            >::empty());
            assert(r0 + a =~= r1);
            assert(r@ =~= r1 + b + seq![10u8]);
            assert(spec_compact(text@, tail) == a + b + seq![10u8] + spec_compact(
                text@,
                spans@.skip(n as int),
            ));
            assert(r@ + spec_compact(text@, spans@.skip(n as int)) =~= r0 + spec_compact(
                text@,
                tail,
            ));
        }
    }
    proof {
        assert(spans@.skip(spans@.len() as int) =~= Seq::<KeywordSpan>::empty());
        assert(r@ =~= spec_compact(text@, spans@));
    }
    r
}

/// Position `x` lies inside the half-open range of `s`.
pub open spec fn in_span(s: Span, x: int) -> bool {
    s.start <= x < s.end
}

/// Position `x` lies inside the keyword or description range of some span.
pub open spec fn covered_by_spans(spans: Seq<KeywordSpan>, x: int) -> bool {
    exists|i: int|
        0 <= i < spans.len() && (in_span(#[trigger] spans[i].keyword, x) || in_span(
            spans[i].description,
            x,
        ))
}

/// Position `x` lies inside some gap.
pub open spec fn covered_by_gaps(gaps: Seq<Span>, x: int) -> bool {
    exists|i: int| 0 <= i < gaps.len() && in_span(#[trigger] gaps[i], x)
}

/// The gaps are non-empty ranges inside `[lo, size)`, in ascending,
/// non-overlapping order.
pub open spec fn gaps_wf(gaps: Seq<Span>, lo: int, size: int) -> bool {
    &&& forall|i: int|
        0 <= i < gaps.len() ==> lo <= (#[trigger] gaps[i]).start < gaps[i].end <= size
    &&& forall|i: int| 0 <= i < gaps.len() - 1 ==> (#[trigger] gaps[i]).end <= gaps[i + 1].start
}

proof fn lemma_covered_gaps_concat(a: Seq<Span>, b: Seq<Span>, x: int)
    ensures
        covered_by_gaps(a + b, x) == (covered_by_gaps(a, x) || covered_by_gaps(b, x)),
{
    if covered_by_gaps(a + b, x) {
        let i = choose|i: int| 0 <= i < (a + b).len() && in_span(#[trigger] (a + b)[i], x);
        if i < a.len() {
            assert(in_span(a[i], x));
        } else {
            assert(in_span(b[i - a.len()], x));
        }
    }
    if covered_by_gaps(a, x) {
        let i = choose|i: int| 0 <= i < a.len() && in_span(#[trigger] a[i], x);
        assert(in_span((a + b)[i], x));
    }
    if covered_by_gaps(b, x) {
        let i = choose|i: int| 0 <= i < b.len() && in_span(#[trigger] b[i], x);
        assert(in_span((a + b)[i + a.len()], x));
    }
}

proof fn lemma_covered_spans_tail(spans: Seq<KeywordSpan>, x: int)
    requires
        spans.len() > 0,
    ensures
        covered_by_spans(spans, x) == (in_span(spans[0].keyword, x) || in_span(
            spans[0].description,
            x,
        ) || covered_by_spans(spans.drop_first(), x)),
{
    let rest = spans.drop_first();
    if covered_by_spans(spans, x) {
        let i = choose|i: int|
            0 <= i < spans.len() && (in_span(#[trigger] spans[i].keyword, x) || in_span(
                spans[i].description,
                x,
            ));
        if i > 0 {
            assert(rest[i - 1] == spans[i]);
            assert(in_span(rest[i - 1].keyword, x) || in_span(rest[i - 1].description, x));
        }
    }
    if covered_by_spans(rest, x) {
        let i = choose|i: int|
            0 <= i < rest.len() && (in_span(#[trigger] rest[i].keyword, x) || in_span(
                rest[i].description,
                x,
            ));
        assert(spans[i + 1] == rest[i]);
        assert(in_span(spans[i + 1].keyword, x) || in_span(spans[i + 1].description, x));
    }
    if in_span(spans[0].keyword, x) || in_span(spans[0].description, x) {
        assert(covered_by_spans(spans, x));
    }
}

/// The induction behind the tiling law, generalized over the cursor.
proof fn lemma_tiling_from(spans: Seq<KeywordSpan>, idx: int, size: int)
    requires
        0 <= idx <= size <= usize::MAX,
        spans_wf(spans, size),
        spans.len() > 0 ==> idx <= spans[0].keyword.start,
    ensures
        gaps_wf(spec_gaps_from(spans, idx, size), idx, size),
        forall|x: int|
            idx <= x < size ==> (covered_by_spans(spans, x) <==> !covered_by_gaps(
                spec_gaps_from(spans, idx, size),
                x,
            )),
        forall|x: int| x < idx ==> !covered_by_spans(spans, x),
        forall|x: int| x < idx || x >= size ==> !covered_by_gaps(spec_gaps_from(spans, idx, size), x),
    decreases spans.len(),
{
    let gaps = spec_gaps_from(spans, idx, size);
    if spans.len() == 0 {
        assert forall|x: int| idx <= x < size implies (covered_by_spans(spans, x)
            <==> !covered_by_gaps(gaps, x)) by {
            assert(idx != size);
            assert(in_span(gaps[0], x));
        }
    } else {
        let s = spans[0];
        let rest = spans.drop_first();
        let idx2 = s.description.end as int;
        assert forall|i: int| 0 <= i < rest.len() implies span_pair_wf(#[trigger] rest[i], size)
            && idx2 <= rest[i].keyword.start by {
            assert(rest[i] == spans[i + 1]);
            assert(span_pair_wf(spans[i + 1], size));
            // ascending order steps from one span to the next
            lemma_spans_sorted_lower_bound(spans, 0, i + 1);
        }
        assert forall|i: int| 0 <= i < rest.len() - 1 implies (#[trigger] rest[i]).description.end
            <= rest[i + 1].keyword.start by {
            assert(rest[i] == spans[i + 1]);
            assert(rest[i + 1] == spans[i + 2]);
        }
        lemma_tiling_from(rest, idx2, size);
        let g1: Seq<Span> = if idx != s.keyword.start {
            seq![Span { start: idx as usize, end: s.keyword.start }]
        } else {
            Seq::empty()
        };
        let g2: Seq<Span> = if s.keyword.end != s.description.start {
            seq![Span { start: s.keyword.end, end: s.description.start }]
        } else {
            Seq::empty()
        };
        let grest = spec_gaps_from(rest, idx2, size);
        assert(gaps == g1 + g2 + grest);
        assert forall|x: int| true implies covered_by_gaps(gaps, x) == (covered_by_gaps(g1, x)
            || covered_by_gaps(g2, x) || covered_by_gaps(grest, x)) by {
            lemma_covered_gaps_concat(g1 + g2, grest, x);
            lemma_covered_gaps_concat(g1, g2, x);
        }
        assert(span_pair_wf(s, size));
        // well-formedness of the combined gap sequence
        assert forall|i: int| 0 <= i < gaps.len() implies idx <= (#[trigger] gaps[i]).start
            < gaps[i].end <= size by {
            if i < g1.len() {
                assert(gaps[i] == g1[0]);
            } else if i < g1.len() + g2.len() {
                assert(gaps[i] == g2[0]);
            } else {
                assert(gaps[i] == grest[i - g1.len() - g2.len()]);
            }
        }
        assert forall|i: int| 0 <= i < gaps.len() - 1 implies (#[trigger] gaps[i]).end <= gaps[i
            + 1].start by {
            let n1 = g1.len() as int;
            let n2 = g2.len() as int;
            if i + 1 < n1 + n2 {
                assert(gaps[i] == g1[0] && gaps[i + 1] == g2[0]);
            } else if i + 1 == n1 + n2 {
                if n2 > 0 {
                    if i < n1 {
                        assert(gaps[i] == g1[0] && gaps[i + 1] == g2[0]);
                    }
                } else {
                    assert(gaps[i] == g1[0] && gaps[i + 1] == grest[0]);
                }
            } else if i >= n1 + n2 {
                assert(gaps[i] == grest[i - n1 - n2]);
                assert(gaps[i + 1] == grest[i + 1 - n1 - n2]);
            } else {
                // i + 1 > n1 + n2 and i < n1 + n2: i is the last of g1 + g2
                if n2 > 0 {
                    assert(gaps[i] == g2[0]);
                } else {
                    assert(gaps[i] == g1[0]);
                }
                assert(gaps[i + 1] == grest[0]);
            }
        }
        // the equivalence, position by position
        assert forall|x: int| idx <= x < size implies (covered_by_spans(spans, x)
            <==> !covered_by_gaps(gaps, x)) by {
            lemma_covered_spans_tail(spans, x);
            if x < s.keyword.start {
                assert(covered_by_gaps(g1, x)) by {
                    assert(in_span(g1[0], x));
                }
                assert(!covered_by_spans(rest, x));
            } else if x < s.keyword.end {
                assert(in_span(s.keyword, x));
                assert(!covered_by_gaps(grest, x));
            } else if x < s.description.start {
                assert(covered_by_gaps(g2, x)) by {
                    assert(in_span(g2[0], x));
                }
                assert(!covered_by_spans(rest, x));
            } else if x < s.description.end {
                assert(in_span(s.description, x));
                assert(!covered_by_gaps(grest, x));
            } else {
                assert(covered_by_spans(spans, x) == covered_by_spans(rest, x));
                assert(!covered_by_gaps(g1, x) && !covered_by_gaps(g2, x));
            }
        }
        assert forall|x: int| x < idx implies !covered_by_spans(spans, x) by {
            lemma_covered_spans_tail(spans, x);
        }
    }
}

/// Ascending order chains across the whole span sequence: a later span's
/// keyword never starts before an earlier span's description ends.
proof fn lemma_spans_sorted_lower_bound(spans: Seq<KeywordSpan>, i: int, j: int)
    requires
        forall|t: int|
            0 <= t < spans.len() - 1 ==> (#[trigger] spans[t]).description.end <= spans[t
                + 1].keyword.start,
        forall|t: int|
            0 <= t < spans.len() ==> (#[trigger] spans[t]).keyword.start
                <= spans[t].description.end,
        0 <= i <= j < spans.len(),
    ensures
        i < j ==> spans[i].description.end <= spans[j].keyword.start,
    decreases j - i,
{
    if i < j - 1 {
        lemma_spans_sorted_lower_bound(spans, i, j - 1);
    }
}

/// The text ends in the three-byte multi-line-string marker `"""` of a host
/// language.
pub open spec fn ends_with_marker(s: Seq<u8>) -> bool {
    s.len() >= 3 && s[s.len() - 3] == 34 && s[s.len() - 2] == 34 && s[s.len() - 1] == 34
}

/// The text with every trailing `"""` marker removed.
pub open spec fn spec_trim_docstring(s: Seq<u8>) -> Seq<u8>
    decreases s.len(),
{
    if ends_with_marker(s) {
        spec_trim_docstring(s.take(s.len() - 3))
    } else {
        s
    }
}

fn ends_with_marker_exec(s: &Vec<u8>) -> (r: bool)
    ensures
        r == ends_with_marker(s@),
{
    if s.len() < 3 {
        return false;
    }
    let n = s.len();
    s[n - 3] == 34 && s[n - 2] == 34 && s[n - 1] == 34
}

fn trim_docstring(name: Vec<u8>) -> (r: Vec<u8>)
    ensures
        r@ == spec_trim_docstring(name@),
{
    let ghost orig = name@;
    let mut name = name;
    while ends_with_marker_exec(&name)
        invariant
            spec_trim_docstring(orig) == spec_trim_docstring(name@),
        decreases name@.len(),
    {
        let ghost before = name@;
        name.pop();
        name.pop();
        name.pop();
        proof {
            assert(name@ =~= before.take(before.len() - 3));
        }
    }
    name
}

/// Removes the trailing multi-line-string marker that the line scan can
/// accidentally capture at the end of a scenario name. Applied to the parsed
/// tree, not to the raw text, so computed positions stay untouched. Every
/// other field of the feature, and of each scenario, is returned unchanged.
pub fn fix_docstrings(feature: Feature) -> (r: Feature)
    ensures
        r.keyword == feature.keyword,
        r.name == feature.name,
        r.description == feature.description,
        r.background == feature.background,
        r.span == feature.span,
        r.position == feature.position,
        r.path == feature.path,
        r.scenarios@.len() == feature.scenarios@.len(),
        forall|i: int|
            0 <= i < feature.scenarios@.len() ==> {
                let s0 = feature.scenarios@[i];
                let s1 = #[trigger] r.scenarios@[i];
                s1.keyword == s0.keyword && s1.name@ == spec_trim_docstring(s0.name@) && s1.steps
                    == s0.steps && s1.span == s0.span && s1.position == s0.position
            },
{
    let ghost orig_scenarios = feature.scenarios@;
    let Feature { keyword, name, description, background, scenarios, span, position, path } =
        feature;
    let mut rest = scenarios;
    let mut cleaned: Vec<Scenario> = Vec::new();
    proof {
        assert(rest@ =~= orig_scenarios.skip(0));
    }
    while rest.len() > 0
        invariant
            cleaned@.len() + rest@.len() == orig_scenarios.len(),
            rest@ == orig_scenarios.skip(cleaned@.len() as int),
            forall|i: int|
                0 <= i < cleaned@.len() ==> {
                    let s0 = orig_scenarios[i];
                    let s1 = #[trigger] cleaned@[i];
                    s1.keyword == s0.keyword && s1.name@ == spec_trim_docstring(s0.name@)
                        && s1.steps == s0.steps && s1.span == s0.span && s1.position == s0.position
                },
        decreases rest@.len(),
    {
        let ghost k = cleaned@.len() as int;
        let sc = rest.remove(0);
        proof {
            assert(sc == orig_scenarios[k]);
            assert(rest@ =~= orig_scenarios.skip(k + 1));
        }
        let Scenario { keyword: s_keyword, name: s_name, steps, span: s_span, position: s_position }
            = sc;
        let trimmed = trim_docstring(s_name);
        cleaned.push(
            Scenario {
                keyword: s_keyword,
                name: trimmed,
                steps,
                span: s_span,
                position: s_position,
            },
        );
    }
    Feature { keyword, name, description, background, scenarios: cleaned, span, position, path }
}

/// Resets a feature's source path, leaving every other field unchanged: used
/// after parsing text that was read from a file, where the parser could not
/// know the path itself.
pub fn fix_path(feature: Feature, file_path: Vec<u8>) -> (r: Feature)
    ensures
        r.path == Some(file_path),
        r.keyword == feature.keyword,
        r.name == feature.name,
        r.description == feature.description,
        r.background == feature.background,
        r.scenarios == feature.scenarios,
        r.span == feature.span,
        r.position == feature.position,
{
    let mut cloned = feature;
    cloned.path = Some(file_path);
    cloned
}

} // verus!
