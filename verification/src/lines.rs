use vstd::prelude::*;

verus! {

/// The byte that terminates every line of the backing file.
pub const LINE_DELIMITER: u8 = 10;

/// Number of delimiter bytes in `s`; equivalently, the number of complete
/// (delimiter-terminated) lines that `s` holds.
pub open spec fn count_nl(s: Seq<u8>) -> nat
    decreases s.len(),
{
    if s.len() == 0 {
        0
    } else {
        count_nl(s.drop_last()) + if s.last() == LINE_DELIMITER {
            1nat
        } else {
            0nat
        }
    }
}

/// The number of lines a sequential line reader yields for `s`: every complete
/// line, plus a trailing fragment without a delimiter if one is present.
pub open spec fn num_reader_lines(s: Seq<u8>) -> nat {
    count_nl(s) + if s.len() > 0 && s.last() != LINE_DELIMITER {
        1nat
    } else {
        0nat
    }
}

/// `pos` is the byte offset at which the line with 0-based number `i` begins:
/// exactly `i` delimiters precede it, and it sits right after a delimiter (or
/// at the start of the file).
pub open spec fn is_line_start(s: Seq<u8>, i: int, pos: int) -> bool {
    &&& 0 <= pos <= s.len()
    &&& count_nl(s.take(pos)) == i
    &&& (pos == 0 || s[pos - 1] == LINE_DELIMITER)
}

/// `e` is the position of the delimiter that terminates the line with 0-based
/// number `i`: it is the `i`-th delimiter of `s` (counting from 0).
pub open spec fn is_line_end(s: Seq<u8>, i: int, e: int) -> bool {
    &&& 0 <= e < s.len()
    &&& count_nl(s.take(e)) == i
    &&& s[e] == LINE_DELIMITER
}

/// The bytes of the complete line with 0-based number `i` (delimiter excluded).
pub open spec fn line_seq(s: Seq<u8>, i: int) -> Seq<u8> {
    let p = choose|p: int| is_line_start(s, i, p);
    let e = choose|e: int| is_line_end(s, i, e);
    s.subrange(p, e)
}

/// `e` is the position of the first delimiter at or after `off`.
pub open spec fn is_first_delim_from(s: Seq<u8>, off: int, e: int) -> bool {
    &&& off <= e < s.len()
    &&& s[e] == LINE_DELIMITER
    &&& (forall|m: int| off <= m < e ==> s[m] != LINE_DELIMITER)
}

pub open spec fn all_ascii(s: Seq<u8>) -> bool {
    forall|i: int| 0 <= i < s.len() ==> s[i] < 128
}

/// One character per byte; meaningful for ASCII content.
pub open spec fn ascii_chars(s: Seq<u8>) -> Seq<char> {
    s.map_values(|b: u8| b as char)
}

/// Extending a prefix by one byte raises the delimiter count exactly when that
/// byte is a delimiter.
pub proof fn lemma_count_nl_push(s: Seq<u8>, i: int)
    requires
        0 <= i < s.len(),
    ensures
        count_nl(s.take(i + 1)) == count_nl(s.take(i)) + if s[i] == LINE_DELIMITER {
            1nat
        } else {
            0nat
        },
{
    assert(s.take(i + 1).drop_last() =~= s.take(i));
    assert(s.take(i + 1).last() == s[i]);
}

pub proof fn lemma_count_nl_mono(s: Seq<u8>, p1: int, p2: int)
    requires
        0 <= p1 <= p2 <= s.len(),
    ensures
        count_nl(s.take(p1)) <= count_nl(s.take(p2)),
    decreases p2 - p1,
{
    if p1 < p2 {
        lemma_count_nl_push(s, p2 - 1);
        lemma_count_nl_mono(s, p1, p2 - 1);
    }
}

pub proof fn lemma_count_nl_concat(a: Seq<u8>, b: Seq<u8>)
    ensures
        count_nl(a + b) == count_nl(a) + count_nl(b),
    decreases b.len(),
{
    if b.len() == 0 {
        assert(a + b =~= a);
    } else {
        assert((a + b).drop_last() =~= a + b.drop_last());
        assert((a + b).last() == b.last());
        lemma_count_nl_concat(a, b.drop_last());
    }
}

pub proof fn lemma_count_nl_zero(s: Seq<u8>)
    requires
        forall|m: int| 0 <= m < s.len() ==> s[m] != LINE_DELIMITER,
    ensures
        count_nl(s) == 0,
    decreases s.len(),
{
    if s.len() > 0 {
        lemma_count_nl_zero(s.drop_last());
    }
}

pub proof fn lemma_line_start_unique(s: Seq<u8>, i: int, p1: int, p2: int)
    requires
        is_line_start(s, i, p1),
        is_line_start(s, i, p2),
    ensures
        p1 == p2,
{
    if p1 < p2 {
        lemma_count_nl_push(s, p2 - 1);
        lemma_count_nl_mono(s, p1, p2 - 1);
    }
    if p2 < p1 {
        lemma_count_nl_push(s, p1 - 1);
        lemma_count_nl_mono(s, p2, p1 - 1);
    }
}

pub proof fn lemma_line_end_unique(s: Seq<u8>, i: int, e1: int, e2: int)
    requires
        is_line_end(s, i, e1),
        is_line_end(s, i, e2),
    ensures
        e1 == e2,
{
    if e1 < e2 {
        lemma_count_nl_push(s, e1);
        lemma_count_nl_mono(s, e1 + 1, e2);
    }
    if e2 < e1 {
        lemma_count_nl_push(s, e2);
        lemma_count_nl_mono(s, e2 + 1, e1);
    }
}

/// Every complete line has a terminating delimiter position.
pub proof fn lemma_line_end_exists(s: Seq<u8>, i: int)
    requires
        0 <= i < count_nl(s),
    ensures
        exists|e: int| is_line_end(s, i, e),
    decreases s.len(),
{
    let t = s.drop_last();
    if s.last() == LINE_DELIMITER && i == count_nl(t) {
        let e = s.len() - 1;
        assert(s.take(e) =~= t);
        assert(is_line_end(s, i, e));
    } else {
        lemma_line_end_exists(t, i);
        let e = choose|e: int| is_line_end(t, i, e);
        assert(t.take(e) =~= s.take(e));
        assert(s[e] == t[e]);
        assert(is_line_end(s, i, e));
    }
}

/// Every line number up to the number of complete lines has a start position.
pub proof fn lemma_line_start_exists(s: Seq<u8>, i: int)
    requires
        0 <= i <= count_nl(s),
    ensures
        exists|p: int| is_line_start(s, i, p),
{
    if i == 0 {
        assert(s.take(0) =~= Seq::<u8>::empty());
        assert(is_line_start(s, 0, 0));
    } else {
        let j = i - 1;
        lemma_line_end_exists(s, j);
        let e = choose|e: int| is_line_end(s, j, e);
        lemma_count_nl_push(s, e);
        assert(is_line_start(s, i, e + 1));
    }
}

/// A line's start does not come after its end, and the line's bytes hold no
/// delimiter.
pub proof fn lemma_no_delim_between(s: Seq<u8>, i: int, p: int, e: int)
    requires
        is_line_start(s, i, p),
        is_line_end(s, i, e),
    ensures
        p <= e,
        forall|m: int| p <= m < e ==> s[m] != LINE_DELIMITER,
{
    if e < p {
        lemma_count_nl_push(s, e);
        lemma_count_nl_mono(s, e + 1, p);
        assert(false);
    }
    assert forall|m: int| p <= m < e implies s[m] != LINE_DELIMITER by {
        if s[m] == LINE_DELIMITER {
            lemma_count_nl_push(s, m);
            lemma_count_nl_mono(s, p, m);
            lemma_count_nl_mono(s, m + 1, e);
        }
    }
}

/// `line_seq` is pinned down by any witnessing start and end position.
pub proof fn lemma_line_seq_is(s: Seq<u8>, i: int, p: int, e: int)
    requires
        is_line_start(s, i, p),
        is_line_end(s, i, e),
    ensures
        line_seq(s, i) == s.subrange(p, e),
{
    let p0 = choose|p0: int| is_line_start(s, i, p0);
    let e0 = choose|e0: int| is_line_end(s, i, e0);
    assert(is_line_start(s, i, p));
    assert(is_line_end(s, i, e));
    lemma_line_start_unique(s, i, p0, p);
    lemma_line_end_unique(s, i, e0, e);
}

} // verus!
