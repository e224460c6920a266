//! Case-sensitive line search.
//!
//! A text is split into lines the way `str::lines` does it: a line ends at
//! `'\n'`, one `'\r'` directly before that `'\n'` is dropped, and a final line
//! ending adds no empty line. The search keeps, in their original order, the
//! lines that hold the query as a contiguous run of characters.
use vstd::prelude::*;
use vstd::utf8::encode_utf8;

use crate::text::{char_range, lemma_encode_utf8_concat, lemma_encode_utf8_push, utf8_width};

verus! {

/// `pat` occurs in `text` starting at position `k`.
pub open spec fn occurs_at(text: Seq<char>, pat: Seq<char>, k: int) -> bool {
    0 <= k && k + pat.len() <= text.len() && text.subrange(k, k + pat.len()) == pat
}

/// `pat` occurs somewhere in `text` as a contiguous substring.
pub open spec fn has_substring(text: Seq<char>, pat: Seq<char>) -> bool {
    exists|k: int| occurs_at(text, pat, k)
}

/// A line as it is handed out: without one trailing carriage return.
pub open spec fn strip_cr(line: Seq<char>) -> Seq<char> {
    if line.len() > 0 && line.last() == '\r' {
        line.drop_last()
    } else {
        line
    }
}

/// The lines of `rest`, where `cur` holds the characters of a line that is
/// already open.
pub open spec fn split_lines(rest: Seq<char>, cur: Seq<char>) -> Seq<Seq<char>>
    decreases rest.len(),
{
    if rest.len() == 0 {
        if cur.len() == 0 {
            seq![]
        } else {
            seq![cur]
        }
    } else if rest[0] == '\n' {
        seq![strip_cr(cur)] + split_lines(rest.drop_first(), seq![])
    } else {
        split_lines(rest.drop_first(), cur.push(rest[0]))
    }
}

/// The lines of a text, in order.
pub open spec fn lines(text: Seq<char>) -> Seq<Seq<char>> {
    split_lines(text, seq![])
}

/// The lines of `ls` that hold `q`, in their order in `ls`.
pub open spec fn matching_lines(ls: Seq<Seq<char>>, q: Seq<char>) -> Seq<Seq<char>>
    decreases ls.len(),
{
    if ls.len() == 0 {
        seq![]
    } else {
        let before = matching_lines(ls.drop_last(), q);
        if has_substring(ls.last(), q) {
            before.push(ls.last())
        } else {
            before
        }
    }
}

/// What a search of `contents` for `query` returns.
pub open spec fn search_result(query: Seq<char>, contents: Seq<char>) -> Seq<Seq<char>> {
    matching_lines(lines(contents), query)
}

/// `idx` lists positions of `ls`, strictly increasing, whose lines are, in
/// that order, the lines of `r`.
pub open spec fn picks(ls: Seq<Seq<char>>, r: Seq<Seq<char>>, idx: Seq<int>) -> bool {
    &&& idx.len() == r.len()
    &&& forall|i: int| 0 <= i < idx.len() ==> 0 <= #[trigger] idx[i] < ls.len() && r[i] == ls[idx[i]]
    &&& forall|i: int, j: int| 0 <= i < j < idx.len() ==> idx[i] < idx[j]
}

/// The positions of the lines of `ls` that hold `q`, in increasing order.
proof fn lemma_matching_positions(ls: Seq<Seq<char>>, q: Seq<char>) -> (idx: Seq<int>)
    ensures
        picks(ls, matching_lines(ls, q), idx),
        forall|j: int| 0 <= j < ls.len() ==> (idx.contains(j) <==> has_substring(ls[j], q)),
    decreases ls.len(),
{
    if ls.len() == 0 {
        seq![]
    } else {
        let prev = ls.drop_last();
        let idx0 = lemma_matching_positions(prev, q);
        let last = ls.len() - 1;
        assert forall|j: int| 0 <= j < prev.len() implies ls[j] == prev[j] by {}
        if has_substring(ls.last(), q) {
            let idx = idx0.push(last);
            assert forall|j: int| 0 <= j < ls.len() implies (idx.contains(j) <==> has_substring(
                ls[j],
                q,
            )) by {
                if j < last {
                    if idx.contains(j) {
                        let i = choose|i: int| 0 <= i < idx.len() && idx[i] == j;
                        assert(i < idx0.len());
                        assert(idx0[i] == j);
                    }
                    if idx0.contains(j) {
                        let i = choose|i: int| 0 <= i < idx0.len() && idx0[i] == j;
                        assert(idx[i] == j);
                    }
                } else {
                    assert(idx[idx.len() - 1] == j);
                }
            }
            idx
        } else {
            assert forall|j: int| 0 <= j < ls.len() implies (idx0.contains(j) <==> has_substring(
                ls[j],
                q,
            )) by {
                if j == last && idx0.contains(j) {
                    let i = choose|i: int| 0 <= i < idx0.len() && idx0[i] == j;
                    assert(idx0[i] < prev.len());
                }
            }
            idx0
        }
    }
}

/// A search returns exactly the lines of the text that hold the query: each
/// returned line holds it, no line that holds it is left out, and the lines
/// come in the order in which they stand in the text.
pub proof fn lemma_search_keeps_matching_lines_in_order(query: Seq<char>, contents: Seq<char>)
    ensures
        ({
            let ls = lines(contents);
            let r = search_result(query, contents);
            &&& forall|i: int| 0 <= i < r.len() ==> has_substring(#[trigger] r[i], query)
            &&& forall|j: int|
                0 <= j < ls.len() && has_substring(#[trigger] ls[j], query) ==> r.contains(ls[j])
            &&& exists|idx: Seq<int>|
                picks(ls, r, idx) && forall|j: int|
                    0 <= j < ls.len() ==> (idx.contains(j) <==> has_substring(
                        #[trigger] ls[j],
                        query,
                    ))
        }),
{
    let ls = lines(contents);
    let r = search_result(query, contents);
    let idx = lemma_matching_positions(ls, query);
    assert forall|i: int| 0 <= i < r.len() implies has_substring(#[trigger] r[i], query) by {
        assert(idx.contains(idx[i]));
    }
    assert forall|j: int| 0 <= j < ls.len() && has_substring(#[trigger] ls[j], query) implies r.contains(
        ls[j],
    ) by {
        assert(idx.contains(j));
        let i = choose|i: int| 0 <= i < idx.len() && idx[i] == j;
        assert(r[i] == ls[j]);
    }
}

/// Every line holds the empty query.
proof fn lemma_empty_query_keeps_all(ls: Seq<Seq<char>>)
    ensures
        matching_lines(ls, seq![]) == ls,
    decreases ls.len(),
{
    if ls.len() > 0 {
        lemma_empty_query_keeps_all(ls.drop_last());
        assert(ls.last().subrange(0, 0) =~= Seq::<char>::empty());
        assert(occurs_at(ls.last(), seq![], 0));
        assert(ls.drop_last().push(ls.last()) =~= ls);
    }
}

/// A search for the empty query returns every line of the text.
pub proof fn lemma_empty_query_returns_every_line(contents: Seq<char>)
    ensures
        search_result(seq![], contents) == lines(contents),
{
    lemma_empty_query_keeps_all(lines(contents));
}

/// A search in an empty text returns no line.
pub proof fn lemma_empty_contents_returns_nothing(query: Seq<char>)
    ensures
        search_result(query, seq![]) == Seq::<Seq<char>>::empty(),
{
    assert(lines(seq![]) =~= Seq::<Seq<char>>::empty());
}

/// The characters of each string slice.
pub open spec fn slice_views(v: Seq<&str>) -> Seq<Seq<char>> {
    v.map_values(|s: &str| s@)
}

/// The characters of `s`, in a vector.
fn chars_of(s: &str) -> (r: Vec<char>)
    ensures
        r@ == s@,
{
    let mut r: Vec<char> = Vec::new();
    for c in it: s.chars()
        invariant
            r@ == it.seq().take(it.index() as int),
    {
        r.push(c);
    }
    r
}

/// Whether `pat` occurs in `text[lo..hi]`.
fn range_has_substring(text: &Vec<char>, lo: usize, hi: usize, pat: &Vec<char>) -> (r: bool)
    requires
        lo <= hi <= text.len(),
    ensures
        r == has_substring(text@.subrange(lo as int, hi as int), pat@),
{
    let ghost line = text@.subrange(lo as int, hi as int);
    let m = pat.len();
    if m > hi - lo {
        assert forall|k: int| !occurs_at(line, pat@, k) by {}
        return false;
    }
    let last = hi - m;
    let mut k: usize = lo;
    while k <= last
        invariant
            lo <= k <= last + 1,
            last + m == hi,
            hi <= text.len(),
            m == pat.len(),
            line == text@.subrange(lo as int, hi as int),
            forall|p: int| 0 <= p < k - lo ==> !occurs_at(line, pat@, p),
        decreases last + 1 - k,
    {
        let mut j: usize = 0;
        while j < m && text[k + j] == pat[j]
            invariant
                j <= m,
                k + m <= hi,
                hi <= text.len(),
                m == pat.len(),
                forall|i: int| 0 <= i < j ==> text@[k + i] == pat@[i],
            decreases m - j,
        {
            j = j + 1;
        }
        if j == m {
            assert(line.subrange(k - lo, k - lo + m) =~= pat@);
            assert(occurs_at(line, pat@, k - lo));
            return true;
        }
        assert(!occurs_at(line, pat@, k - lo)) by {
            if occurs_at(line, pat@, k - lo) {
                assert(line.subrange(k - lo, k - lo + m)[j as int] == pat@[j as int]);
            }
        }
        k = k + 1;
    }
    assert forall|p: int| !occurs_at(line, pat@, p) by {
        if 0 <= p && p >= k - lo {
            assert(p + m > line.len());
        }
    }
    false
}

/// The lines of `contents` that hold `query`, in their original order, as
/// slices of `contents`. An empty query keeps every line; the comparison is
/// exact, with no case folding.
pub fn search<'a>(query: &str, contents: &'a str) -> (r: Vec<&'a str>)
    ensures
        slice_views(r@) == search_result(query@, contents@),
{
    let text = chars_of(contents);
    let pat = chars_of(query);
    let n = text.len();
    let total_bytes = contents.as_bytes().len();
    let mut r: Vec<&'a str> = Vec::new();
    let ghost mut done: Seq<Seq<char>> = seq![];
    let mut start: usize = 0;
    let mut i: usize = 0;
    let mut byte_start: usize = 0;
    let mut byte_i: usize = 0;
    assert(text@.subrange(0, n as int) =~= contents@);
    assert(text@.subrange(0, 0) =~= Seq::<char>::empty());
    assert(done + lines(contents@) =~= lines(contents@));
    while i < n
        invariant
            text@ == contents@,
            pat@ == query@,
            n == text.len(),
            total_bytes == encode_utf8(contents@).len(),
            start <= i <= n,
            byte_start == encode_utf8(text@.subrange(0, start as int)).len(),
            byte_i == encode_utf8(text@.subrange(0, i as int)).len(),
            lines(contents@) == done + split_lines(
                text@.subrange(i as int, n as int),
                text@.subrange(start as int, i as int),
            ),
            slice_views(r@) == matching_lines(done, query@),
        decreases n - i,
    {
        let ghost cur = text@.subrange(start as int, i as int);
        let ghost rest = text@.subrange(i as int, n as int);
        assert(rest.drop_first() =~= text@.subrange(i + 1, n as int));
        let width = utf8_width(text[i]);
        proof {
            lemma_encode_utf8_push(text@.subrange(0, i as int), text@[i as int]);
            assert(text@.subrange(0, i as int).push(text@[i as int]) =~= text@.subrange(0, i + 1));
            assert(text@ =~= text@.subrange(0, i + 1) + text@.subrange(i + 1, n as int));
            lemma_encode_utf8_concat(text@.subrange(0, i + 1), text@.subrange(i + 1, n as int));
        }
        if text[i] == '\n' {
            let (end, byte_end) = if i > start && text[i - 1] == '\r' {
                proof {
                    lemma_encode_utf8_push(text@.subrange(0, i - 1), '\r');
                    assert(text@.subrange(0, i - 1).push('\r') =~= text@.subrange(0, i as int));
                }
                (i - 1, byte_i - 1)
            } else {
                (i, byte_i)
            };
            let ghost line = strip_cr(cur);
            assert(line =~= text@.subrange(start as int, end as int));
            let ghost r_before = r@;
            if range_has_substring(&text, start, end, &pat) {
                r.push(char_range(contents, start, end, byte_start, byte_end));
                assert(slice_views(r@) =~= slice_views(r_before).push(line));
            }
            proof {
                assert(text@.subrange(i + 1, i + 1) =~= Seq::<char>::empty());
                assert(done + split_lines(rest, cur) =~= done.push(line) + split_lines(
                    text@.subrange(i + 1, n as int),
                    seq![],
                ));
                assert(done.push(line).drop_last() =~= done);
                done = done.push(line);
            }
            start = i + 1;
            byte_start = byte_i + width;
        } else {
            assert(cur.push(text@[i as int]) =~= text@.subrange(start as int, i + 1));
        }
        i = i + 1;
        byte_i = byte_i + width;
    }
    let ghost cur = text@.subrange(start as int, n as int);
    assert(text@.subrange(n as int, n as int) =~= Seq::<char>::empty());
    if start < n {
        let ghost r_before = r@;
        if range_has_substring(&text, start, n, &pat) {
            r.push(char_range(contents, start, n, byte_start, byte_i));
            assert(slice_views(r@) =~= slice_views(r_before).push(cur));
        }
        assert(done.push(cur).drop_last() =~= done);
        assert(lines(contents@) =~= done.push(cur));
    } else {
        assert(lines(contents@) =~= done);
    }
    r
}

} // verus!
