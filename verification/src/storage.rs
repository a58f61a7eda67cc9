use vstd::prelude::*;
use vstd::arithmetic::div_mod::lemma_fundamental_div_mod;
use vstd::arithmetic::div_mod::lemma_mod_bound;
use vstd::arithmetic::div_mod::lemma_fundamental_div_mod_converse;
use vstd::arithmetic::mul::lemma_mul_inequality;
use vstd::arithmetic::div_mod::lemma_div_is_ordered;

use crate::lines::all_ascii;
use crate::lines::ascii_chars;
use crate::lines::count_nl;
use crate::lines::is_first_delim_from;
use crate::lines::is_line_end;
use crate::lines::is_line_start;
use crate::lines::lemma_count_nl_concat;
use crate::lines::lemma_count_nl_mono;
use crate::lines::lemma_count_nl_push;
use crate::lines::lemma_line_seq_is;
use crate::lines::lemma_line_end_exists;
use crate::lines::lemma_line_start_exists;
use crate::lines::lemma_no_delim_between;
use crate::lines::line_seq;
use crate::lines::num_reader_lines;
use crate::lines::LINE_DELIMITER;

verus! {

/// Size limit for the sampled table: the stride is chosen so that the index
/// never holds more than twice this many entries, whatever the file size.
pub const MAX_NUMBER_OF_INDEXED_LINES: u64 = 1024 * 1024;

/// The sampling stride chosen for a file of `n_lines` lines: every line for
/// small files, and otherwise wide enough that the number of sampled entries
/// stays within twice the table size limit.
pub open spec fn stride_for(n_lines: int) -> int {
    if n_lines / (MAX_NUMBER_OF_INDEXED_LINES as int) >= 1 {
        n_lines / (MAX_NUMBER_OF_INDEXED_LINES as int)
    } else {
        1
    }
}

/// Byte offset at which the line with 0-based number `i` starts, computed
/// from the lengths of the lines before it (each followed by one delimiter).
pub open spec fn start_of(lens: Seq<int>, i: int) -> int
    decreases i,
{
    if i <= 0 {
        0
    } else {
        start_of(lens, i - 1) + lens[i - 1] + 1
    }
}

proof fn lemma_start_of_push(lens: Seq<int>, x: int, i: int)
    requires
        0 <= i <= lens.len(),
    ensures
        start_of(lens.push(x), i) == start_of(lens, i),
    decreases i,
{
    if i > 0 {
        lemma_start_of_push(lens, x, i - 1);
    }
}

/// Sparse, fixed-stride table mapping sampled line numbers to byte offsets:
/// entry `k` holds the offset of the line with 0-based number `k * nth`.
pub struct Index {
    nth: u64,
    entries: Vec<u64>,
}

impl Index {
    /// The sampling stride.
    pub closed spec fn spec_nth(self) -> u64 {
        self.nth
    }

    /// The sampled byte offsets.
    pub closed spec fn spec_entries(self) -> Seq<u64> {
        self.entries@
    }

    pub open spec fn wf(self) -> bool {
        self.spec_nth() >= 1
    }

    /// How many entries an index over `n_lines` lines with stride `nth` holds:
    /// one for each started group of `nth` lines.
    pub open spec fn expected_entries(n_lines: int, nth: int) -> int {
        if n_lines <= 0 {
            0
        } else {
            (n_lines - 1) / nth + 1
        }
    }

    /// The index describes a file whose lines have the given lengths.
    pub open spec fn lens_consistent(self, lens: Seq<int>) -> bool {
        &&& self.wf()
        &&& self.spec_entries().len() == Self::expected_entries(
            lens.len() as int,
            self.spec_nth() as int,
        )
        &&& forall|k: int|
            0 <= k < self.spec_entries().len() ==> self.spec_entries()[k] == start_of(
                lens,
                #[trigger] (k * self.spec_nth()),
            )
    }

    /// The index describes the byte content `c`: it has the right number of
    /// entries for the lines a reader yields from `c`, and every entry is the
    /// byte offset at which its sampled line starts.
    pub open spec fn consistent_with(self, c: Seq<u8>) -> bool {
        &&& self.wf()
        &&& self.spec_entries().len() == Self::expected_entries(
            num_reader_lines(c) as int,
            self.spec_nth() as int,
        )
        &&& forall|k: int|
            0 <= k < self.spec_entries().len() ==> is_line_start(
                c,
                #[trigger] (k * self.spec_nth()),
                self.spec_entries()[k] as int,
            )
    }

    /// What `resolve` answers for the 1-based line number `n`: the 1-based
    /// number of the nearest sampled line at or before `n` and its byte
    /// offset, or nothing when `n` is zero or lies beyond the sampled range.
    pub open spec fn resolve_spec(self, n: u64) -> Option<(u64, u64)> {
        if n < 1 {
            None
        } else {
            let s0 = (n - 1) as int - ((n - 1) as int % (self.spec_nth() as int));
            let k = s0 / (self.spec_nth() as int);
            if k < self.spec_entries().len() {
                Some((((s0 + 1) as u64), self.spec_entries()[k]))
            } else {
                None
            }
        }
    }

    /// Given a 1-based line number, return the closest (less than or equal)
    /// sampled 1-based line number and its byte offset.
    pub fn resolve(&self, line_number: u64) -> (r: Option<(u64, u64)>)
        requires
            self.wf(),
        ensures
            r == self.resolve_spec(line_number),
    {
        if line_number == 0 {
            return None;
        }
        let l0 = line_number - 1;
        let rem = l0 % self.nth;
        proof {
            let nthi = self.nth as int;
            let q = l0 as int / nthi;
            lemma_fundamental_div_mod(l0 as int, nthi);
            lemma_mod_bound(l0 as int, nthi);
            assert(q >= 0 && nthi * q == q * nthi) by (nonlinear_arith)
                requires
                    nthi >= 1,
                    l0 as int == nthi * q + (l0 as int % nthi),
                    0 <= (l0 as int % nthi) < nthi,
                    l0 as int >= 0,
            ;
        }
        let sampled0 = l0 - rem;
        let k = sampled0 / self.nth;
        proof {
            let nthi = self.nth as int;
            let q = l0 as int / nthi;
            lemma_fundamental_div_mod_converse(sampled0 as int, nthi, q, 0);
            assert(k as int == q);
        }
        if k < self.entries.len() as u64 {
            Some((sampled0 + 1, self.entries[k as usize]))
        } else {
            None
        }
    }
}

/// Incremental construction of an [`Index`] from one sequential pass over the
/// file's lines: the total line count is fixed first (it determines the
/// stride), then each line's byte length is fed in order.
pub struct IndexBuilder {
    nth: u64,
    expected: u64,
    count: u64,
    offset: u64,
    entries: Vec<u64>,
    lens: Ghost<Seq<int>>,
}

impl IndexBuilder {
    /// The lengths of the lines fed so far.
    pub closed spec fn spec_lens(self) -> Seq<int> {
        self.lens@
    }

    pub closed spec fn spec_count(self) -> u64 {
        self.count
    }

    pub closed spec fn spec_expected(self) -> u64 {
        self.expected
    }

    pub closed spec fn spec_nth(self) -> u64 {
        self.nth
    }

    pub closed spec fn spec_offset(self) -> u64 {
        self.offset
    }

    pub open spec fn wf(self) -> bool {
        &&& self.spec_nth() >= 1
        &&& self.spec_lens().len() == self.spec_count()
        &&& self.spec_count() <= self.spec_expected()
        &&& (forall|j: int| 0 <= j < self.spec_lens().len() ==> self.spec_lens()[j] >= 0)
        &&& self.spec_offset() == start_of(self.spec_lens(), self.spec_count() as int)
    }

    pub closed spec fn entries_ok(self) -> bool {
        &&& self.entries@.len() == Index::expected_entries(self.count as int, self.nth as int)
        &&& forall|k: int|
            0 <= k < self.entries@.len() ==> self.entries@[k] == start_of(
                self.lens@,
                #[trigger] (k * self.nth),
            )
    }

    /// Start building an index for a file of `number_of_lines` lines. The
    /// stride grows with the line count so that no more than twice
    /// `MAX_NUMBER_OF_INDEXED_LINES` entries are ever recorded.
    pub fn new(number_of_lines: u64) -> (b: IndexBuilder)
        ensures
            b.wf(),
            b.entries_ok(),
            b.spec_count() == 0,
            b.spec_expected() == number_of_lines,
            b.spec_lens() == Seq::<int>::empty(),
            b.spec_nth() == stride_for(number_of_lines as int),
    {
        let quotient = number_of_lines / MAX_NUMBER_OF_INDEXED_LINES;
        let nth = if quotient >= 1 {
            quotient
        } else {
            1
        };
        IndexBuilder {
            nth,
            expected: number_of_lines,
            count: 0,
            offset: 0,
            entries: Vec::new(),
            lens: Ghost(Seq::empty()),
        }
    }

    /// Feed the byte length (delimiter excluded) of the next line.
    pub fn add_line(&mut self, len: u64)
        requires
            old(self).wf(),
            old(self).entries_ok(),
            old(self).spec_count() < old(self).spec_expected(),
            old(self).spec_offset() + len + 1 <= u64::MAX,
        ensures
            final(self).wf(),
            final(self).entries_ok(),
            final(self).spec_nth() == old(self).spec_nth(),
            final(self).spec_expected() == old(self).spec_expected(),
            final(self).spec_count() == old(self).spec_count() + 1,
            final(self).spec_lens() == old(self).spec_lens().push(len as int),
            final(self).spec_offset() == old(self).spec_offset() + len + 1,
    {
        let ghost old_self = *self;
        if self.count % self.nth == 0 {
            self.entries.push(self.offset);
        }
        self.offset = self.offset + len + 1;
        self.count = self.count + 1;
        proof {
            self.lens@ = self.lens@.push(len as int);
        }
        proof {
            let nth = self.nth as int;
            let c0 = old_self.count as int;
            let lens1 = self.lens@;
            assert forall|i: int| 0 <= i <= c0 implies start_of(lens1, i) == start_of(
                old_self.lens@,
                i,
            ) by {
                lemma_start_of_push(old_self.lens@, len as int, i);
            }
            assert(start_of(lens1, c0 + 1) == start_of(lens1, c0) + len + 1);
            // the entry count moves exactly when a new sampled group starts
            if c0 % nth == 0 {
                let q = c0 / nth;
                lemma_fundamental_div_mod(c0, nth);
                assert(c0 == nth * q);
                assert(nth * q == q * nth && (q - 1) * nth == q * nth - nth && q >= 0) by (
                nonlinear_arith)
                    requires
                        nth >= 1,
                        c0 >= 0,
                        c0 == nth * q,
                ;
                if c0 > 0 {
                    lemma_fundamental_div_mod_converse(c0 - 1, nth, q - 1, nth - 1);
                }
                assert(Index::expected_entries(c0 + 1, nth) == Index::expected_entries(c0, nth)
                    + 1);
                assert(self.entries@[Index::expected_entries(c0, nth)] == old_self.offset);
                assert forall|k: int| 0 <= k < self.entries@.len() implies self.entries@[k]
                    == start_of(lens1, #[trigger] (k * self.nth)) by {
                    if k < self.entries@.len() - 1 {
                        assert(self.entries@[k] == old_self.entries@[k]);
                        lemma_mul_inequality(k, q, nth);
                    } else {
                        assert(k == q);
                        assert(k * self.nth == c0);
                    }
                }
            } else {
                let q = c0 / nth;
                let r = c0 % nth;
                lemma_fundamental_div_mod(c0, nth);
                lemma_mod_bound(c0, nth);
                assert(nth * q == q * nth) by (nonlinear_arith);
                lemma_fundamental_div_mod_converse(c0 - 1, nth, q, r - 1);
                assert(Index::expected_entries(c0 + 1, nth) == Index::expected_entries(c0, nth));
                assert forall|k: int| 0 <= k < self.entries@.len() implies self.entries@[k]
                    == start_of(lens1, #[trigger] (k * self.nth)) by {
                    assert(self.entries@[k] == old_self.entries@[k]);
                    lemma_mul_inequality(k, q, nth);
                }
            }
        }
    }

    /// Finish: all announced lines must have been fed.
    pub fn finish(self) -> (idx: Index)
        requires
            self.wf(),
            self.entries_ok(),
            self.spec_count() == self.spec_expected(),
        ensures
            idx.lens_consistent(self.spec_lens()),
            idx.spec_nth() == self.spec_nth(),
    {
        Index { nth: self.nth, entries: self.entries }
    }
}


/// With the stride chosen for the file's line count, the sampled table never
/// holds more than one entry per line, nor more than twice the table size
/// limit, whatever the file size.
proof fn lemma_entry_count_bound(l: int, nth: int)
    requires
        l >= 0,
        nth == stride_for(l),
    ensures
        nth >= 1,
        Index::expected_entries(l, nth) <= l,
        Index::expected_entries(l, nth) <= 2 * (MAX_NUMBER_OF_INDEXED_LINES as int),
{
    let m = MAX_NUMBER_OF_INDEXED_LINES as int;
    if l > 0 {
        let q = (l - 1) / nth;
        lemma_fundamental_div_mod(l - 1, nth);
        lemma_mod_bound(l - 1, nth);
        assert(q >= 0 && q <= l - 1) by (nonlinear_arith)
            requires
                l >= 1,
                l - 1 == nth * q + ((l - 1) % nth),
                0 <= ((l - 1) % nth) < nth,
                nth >= 1,
        ;
        if l / m >= 1 {
            lemma_fundamental_div_mod(l, m);
            lemma_mod_bound(l, m);
            let q3 = (m - 1) / nth;
            lemma_fundamental_div_mod(m - 1, nth);
            lemma_mod_bound(m - 1, nth);
            assert(q3 >= 0 && q3 <= m - 1 && (m + q3) * nth + ((m - 1) % nth) == m * nth + (m
                - 1)) by (nonlinear_arith)
                requires
                    m >= 1,
                    m - 1 == nth * q3 + ((m - 1) % nth),
                    0 <= ((m - 1) % nth) < nth,
                    nth >= 1,
            ;
            lemma_fundamental_div_mod_converse(m * nth + m - 1, nth, m + q3, (m - 1) % nth);
            lemma_div_is_ordered(l - 1, m * nth + m - 1, nth);
        } else {
            lemma_fundamental_div_mod(l, m);
            lemma_mod_bound(l, m);
            assert(m * (l / m) == 0) by (nonlinear_arith)
                requires
                    l / m == 0,
            ;
            lemma_fundamental_div_mod_converse(l - 1, 1, l - 1, 0);
        }
    }
}

impl Index {
    /// Build the index for the byte content `c` of the backing file, in two
    /// sequential passes: count the lines, then record the byte offset of
    /// every `nth` line start.
    #[verifier::loop_isolation(false)]
    pub fn index(content: &Vec<u8>) -> (idx: Index)
        requires
            content@.len() < u64::MAX,
        ensures
            idx.consistent_with(content@),
            idx.spec_nth() == stride_for(num_reader_lines(content@) as int),
            idx.spec_entries().len() <= num_reader_lines(content@),
            idx.spec_entries().len() <= 2 * MAX_NUMBER_OF_INDEXED_LINES,
    {
        let ghost c = content@;
        let len = content.len();
        let mut i: usize = 0;
        let mut delims: usize = 0;
        while i < len
            invariant
                i <= len,
                delims <= i,
                delims == count_nl(c.take(i as int)),
            decreases len - i,
        {
            proof {
                lemma_count_nl_push(c, i as int);
            }
            if content[i] == LINE_DELIMITER {
                delims = delims + 1;
            }
            i = i + 1;
        }
        proof {
            assert(c.take(len as int) =~= c);
        }
        let number_of_lines: u64 = if len > 0 && content[len - 1] != LINE_DELIMITER {
            delims as u64 + 1
        } else {
            delims as u64
        };
        proof {
            assert(number_of_lines == num_reader_lines(c));
        }
        let mut b = IndexBuilder::new(number_of_lines);
        let mut j: u64 = 0;
        let mut cur_start: usize = 0;
        let mut i2: usize = 0;
        proof {
            assert(c.take(0) =~= Seq::<u8>::empty());
        }
        while i2 < len
            invariant
                i2 <= len,
                cur_start <= i2,
                b.wf(),
                b.entries_ok(),
                b.spec_nth() == stride_for(number_of_lines as int),
                b.spec_expected() == number_of_lines,
                b.spec_count() == j,
                j == count_nl(c.take(i2 as int)),
                b.spec_offset() == cur_start,
                is_line_start(c, j as int, cur_start as int),
                forall|m: int| cur_start <= m < i2 ==> c[m] != LINE_DELIMITER,
                forall|t: int| 0 <= t <= j ==> is_line_start(c, t, start_of(b.spec_lens(), t)),
            decreases len - i2,
        {
            proof {
                lemma_count_nl_push(c, i2 as int);
            }
            if content[i2] == LINE_DELIMITER {
                proof {
                    lemma_count_nl_mono(c, i2 as int + 1, len as int);
                }
                let ghost lens0 = b.spec_lens();
                b.add_line((i2 - cur_start) as u64);
                j = j + 1;
                cur_start = i2 + 1;
                proof {
                    assert(is_line_start(c, j as int, cur_start as int));
                    assert forall|t: int| 0 <= t <= j implies is_line_start(
                        c,
                        t,
                        start_of(b.spec_lens(), t),
                    ) by {
                        if t < j {
                            lemma_start_of_push(lens0, b.spec_lens().last(), t);
                        } else {
                            lemma_start_of_push(lens0, b.spec_lens().last(), t - 1);
                            assert(start_of(b.spec_lens(), t) == cur_start);
                        }
                    }
                }
            }
            i2 = i2 + 1;
        }
        proof {
            assert(c.take(len as int) =~= c);
        }
        if cur_start < len {
            // the trailing fragment counts as a final, incomplete line
            let ghost lens0 = b.spec_lens();
            b.add_line((len - cur_start) as u64);
            proof {
                assert forall|t: int| 0 <= t <= j implies is_line_start(
                    c,
                    t,
                    start_of(b.spec_lens(), t),
                ) by {
                    lemma_start_of_push(lens0, b.spec_lens().last(), t);
                }
            }
        }
        let ghost lens_final = b.spec_lens();
        let ghost count_final = b.spec_count();
        let idx = b.finish();
        proof {
            let nthi = idx.spec_nth() as int;
            lemma_entry_count_bound(number_of_lines as int, nthi);
            assert forall|k: int| 0 <= k < idx.spec_entries().len() implies is_line_start(
                c,
                #[trigger] (k * idx.spec_nth()),
                idx.spec_entries()[k] as int,
            ) by {
                let cnt = count_final as int;
                let qq = (cnt - 1) / nthi;
                lemma_fundamental_div_mod(cnt - 1, nthi);
                lemma_mod_bound(cnt - 1, nthi);
                lemma_mul_inequality(k, qq, nthi);
                assert(qq * nthi <= cnt - 1) by (nonlinear_arith)
                    requires
                        cnt - 1 == nthi * qq + ((cnt - 1) % nthi),
                        0 <= ((cnt - 1) % nthi),
                ;
                assert(idx.spec_entries()[k] == start_of(lens_final, k * idx.spec_nth()));
                assert(0 <= k * idx.spec_nth() <= cnt - 1);
                assert(is_line_start(c, k * nthi, start_of(lens_final, k * nthi)));
            }
        }
        idx
    }

    /// A successful resolution names a sampled line at or before the
    /// requested one, together with the byte offset at which it starts.
    pub proof fn lemma_resolve_some(self, c: Seq<u8>, n: u64, s: u64, off: u64)
        requires
            self.consistent_with(c),
            self.resolve_spec(n) == Some((s, off)),
        ensures
            1 <= s <= n,
            is_line_start(c, s as int - 1, off as int),
            s as int - 1 == ((n as int - 1) / (self.spec_nth() as int)) * (self.spec_nth() as int),
    {
        let nthi = self.spec_nth() as int;
        let l0 = n as int - 1;
        let q = l0 / nthi;
        lemma_fundamental_div_mod(l0, nthi);
        lemma_mod_bound(l0, nthi);
        let s0 = l0 - l0 % nthi;
        assert(q >= 0 && nthi * q == q * nthi) by (nonlinear_arith)
            requires
                nthi >= 1,
                l0 == nthi * q + (l0 % nthi),
                0 <= (l0 % nthi) < nthi,
                l0 >= 0,
        ;
        lemma_fundamental_div_mod_converse(s0, nthi, q, 0);
        assert(s0 / nthi == q);
        assert(is_line_start(c, q * self.spec_nth(), self.spec_entries()[q] as int));
        assert(s as int - 1 == s0);
    }

    /// A failed resolution happens only for line zero or for a line number
    /// beyond the sampled range, which lies past every complete line.
    pub proof fn lemma_resolve_none(self, c: Seq<u8>, n: u64)
        requires
            self.consistent_with(c),
            self.resolve_spec(n) is None,
        ensures
            n == 0 || n > count_nl(c),
    {
        if n >= 1 {
            let nthi = self.spec_nth() as int;
            let l0 = n as int - 1;
            let q = l0 / nthi;
            lemma_fundamental_div_mod(l0, nthi);
            lemma_mod_bound(l0, nthi);
            let s0 = l0 - l0 % nthi;
            assert(q >= 0 && nthi * q == q * nthi) by (nonlinear_arith)
                requires
                    nthi >= 1,
                    l0 == nthi * q + (l0 % nthi),
                    0 <= (l0 % nthi) < nthi,
                    l0 >= 0,
            ;
            lemma_fundamental_div_mod_converse(s0, nthi, q, 0);
            assert(q >= self.spec_entries().len());
            let ll = num_reader_lines(c) as int;
            if ll > 0 {
                let qq = (ll - 1) / nthi;
                lemma_fundamental_div_mod(ll - 1, nthi);
                lemma_mod_bound(ll - 1, nthi);
                assert(qq * nthi >= ll - nthi) by (nonlinear_arith)
                    requires
                        ll - 1 == nthi * qq + ((ll - 1) % nthi),
                        ((ll - 1) % nthi) < nthi,
                ;
                lemma_mul_inequality(qq + 1, q, nthi);
                assert((qq + 1) * nthi == qq * nthi + nthi) by (nonlinear_arith);
                assert(l0 >= ll);
            }
        }
    }
}

/// Index resolution is monotonic: of two 1-based line numbers that both
/// resolve, the smaller one never gets the larger sampled byte offset.
pub proof fn lemma_resolve_monotonic(
    idx: Index,
    c: Seq<u8>,
    n1: u64,
    n2: u64,
    s1: u64,
    o1: u64,
    s2: u64,
    o2: u64,
)
    requires
        idx.consistent_with(c),
        n1 <= n2,
        idx.resolve_spec(n1) == Some((s1, o1)),
        idx.resolve_spec(n2) == Some((s2, o2)),
    ensures
        o1 <= o2,
{
    idx.lemma_resolve_some(c, n1, s1, o1);
    idx.lemma_resolve_some(c, n2, s2, o2);
    let nthi = idx.spec_nth() as int;
    lemma_div_is_ordered(n1 as int - 1, n2 as int - 1, nthi);
    lemma_mul_inequality((n1 as int - 1) / nthi, (n2 as int - 1) / nthi, nthi);
    assert(s1 <= s2);
    if o1 > o2 {
        lemma_count_nl_mono(c, o2 as int, o1 as int);
        assert(s2 <= s1);
        crate::lines::lemma_line_start_unique(c, s1 as int - 1, o1 as int, o2 as int);
    }
}


/// Fixed page size for positioned reads of the backing file.
pub const PAGE_SIZE: usize = 4 * 1024;

/// Copy up to one page of `content` starting at `offset`, mirroring a
/// positioned read of the backing file.
fn read_page(content: &Vec<u8>, offset: u64) -> (page: Vec<u8>)
    requires
        offset <= content@.len(),
    ensures
        page@.len() == if content@.len() - offset < PAGE_SIZE {
            content@.len() - offset
        } else {
            PAGE_SIZE as int
        },
        page@ == content@.subrange(offset as int, offset as int + page@.len()),
{
    let len = content.len();
    let start = offset as usize;
    let remaining = len - start;
    let take_n = if remaining < PAGE_SIZE {
        remaining
    } else {
        PAGE_SIZE
    };
    let mut page: Vec<u8> = Vec::new();
    let mut t: usize = 0;
    while t < take_n
        invariant
            t <= take_n,
            take_n <= remaining,
            start == offset,
            start + take_n <= len,
            len == content@.len(),
            page@.len() == t,
            page@ == content@.subrange(offset as int, offset as int + t),
        decreases take_n - t,
    {
        page.push(content[start + t]);
        proof {
            assert(page@ =~= content@.subrange(offset as int, offset as int + t + 1));
        }
        t = t + 1;
    }
    page
}

/// Relies on String::from_utf8: a sequence of ASCII bytes is valid UTF-8 and
/// decodes to one character per byte.
#[verifier::external_body]
fn ascii_to_string(bytes: Vec<u8>) -> (r: String)
    requires
        all_ascii(bytes@),
    ensures
        r@ == ascii_chars(bytes@),
{
    String::from_utf8(bytes).unwrap_or_default()
}

fn check_ascii(bytes: &Vec<u8>) -> (r: bool)
    ensures
        r == all_ascii(bytes@),
{
    let mut i: usize = 0;
    while i < bytes.len()
        invariant
            i <= bytes@.len(),
            forall|m: int| 0 <= m < i ==> bytes@[m] < 128,
        decreases bytes@.len() - i,
    {
        if bytes[i] >= 128 {
            return false;
        }
        i = i + 1;
    }
    true
}

/// Forward delimiter-counting scan: tracks the byte offset reached so far
/// and how many delimiters remain to be consumed before the target line
/// starts.
pub struct SkipScan {
    offset: u64,
    lines_to_skip: u64,
}

impl SkipScan {
    pub closed spec fn spec_offset(self) -> u64 {
        self.offset
    }

    pub closed spec fn spec_lines_to_skip(self) -> u64 {
        self.lines_to_skip
    }

    pub fn new(offset: u64, lines_to_skip: u64) -> (s: SkipScan)
        ensures
            s.spec_offset() == offset,
            s.spec_lines_to_skip() == lines_to_skip,
    {
        SkipScan { offset, lines_to_skip }
    }

    /// The scan is complete: the offset reached is the target line's start.
    pub fn done(&self) -> (r: bool)
        ensures
            r == (self.spec_lines_to_skip() == 0),
    {
        self.lines_to_skip == 0
    }

    pub fn offset(&self) -> (r: u64)
        ensures
            r == self.spec_offset(),
    {
        self.offset
    }

    /// Consume one page of `bytes_read` bytes freshly read at the current
    /// offset: advance byte by byte, counting off delimiters, and stop right
    /// after the last delimiter owed or at the end of the page.
    #[verifier::loop_isolation(false)]
    pub fn feed(&mut self, page: &Vec<u8>, bytes_read: usize)
        requires
            old(self).spec_lines_to_skip() > 0,
            bytes_read <= page@.len(),
            old(self).spec_offset() + bytes_read <= u64::MAX,
        ensures
            ({
                let p = page@.take(bytes_read as int);
                let consumed = final(self).spec_offset() - old(self).spec_offset();
                &&& old(self).spec_offset() <= final(self).spec_offset() <= old(self).spec_offset() + bytes_read
                &&& final(self).spec_lines_to_skip() <= old(self).spec_lines_to_skip()
                &&& count_nl(p.take(consumed as int)) == old(self).spec_lines_to_skip() - final(self).spec_lines_to_skip()
                &&& (final(self).spec_lines_to_skip() == 0 ==> consumed > 0 && p[consumed - 1]
                    == LINE_DELIMITER)
                &&& (final(self).spec_lines_to_skip() > 0 ==> consumed == bytes_read)
            }),
    {
        let ghost p = page@.take(bytes_read as int);
        let ghost off0 = self.offset;
        let ghost k0 = self.lines_to_skip;
        let mut idx: usize = 0;
        while idx < bytes_read && self.lines_to_skip > 0
            invariant
                idx <= bytes_read,
                self.offset == off0 + idx,
                self.lines_to_skip <= k0,
                count_nl(p.take(idx as int)) == k0 - self.lines_to_skip,
                self.lines_to_skip == 0 ==> idx > 0 && p[idx - 1] == LINE_DELIMITER,
            decreases bytes_read - idx,
        {
            let byte = page[idx];
            proof {
                assert(p[idx as int] == page@[idx as int]);
                lemma_count_nl_push(p, idx as int);
            }
            if byte == LINE_DELIMITER {
                self.lines_to_skip = self.lines_to_skip - 1;
            }
            idx = idx + 1;
            self.offset = self.offset + 1;
        }
        proof {
            if self.lines_to_skip > 0 {
                assert(p.take(idx as int) =~= p);
            }
        }
    }
}

/// Accumulates the bytes of one line while scanning pages forward for the
/// next delimiter.
pub struct LineScan {
    buf: Vec<u8>,
}

impl LineScan {
    pub closed spec fn spec_buf(self) -> Seq<u8> {
        self.buf@
    }

    pub fn new() -> (s: LineScan)
        ensures
            s.spec_buf() == Seq::<u8>::empty(),
    {
        LineScan { buf: Vec::new() }
    }

    /// Consume one page of `bytes_read` bytes read just past what has been
    /// collected so far: either the line's terminating delimiter sits at the
    /// returned in-page position, or the whole page belongs to the line.
    #[verifier::loop_isolation(false)]
    pub fn feed(&mut self, page: &Vec<u8>, bytes_read: usize) -> (found: Option<usize>)
        requires
            bytes_read <= page@.len(),
        ensures
            match found {
                Some(r) => {
                    &&& r < bytes_read
                    &&& page@[r as int] == LINE_DELIMITER
                    &&& (forall|m: int| 0 <= m < r ==> page@[m] != LINE_DELIMITER)
                    &&& final(self).spec_buf() == old(self).spec_buf() + page@.take(r as int)
                },
                None => {
                    &&& (forall|m: int| 0 <= m < bytes_read ==> page@[m] != LINE_DELIMITER)
                    &&& final(self).spec_buf() == old(self).spec_buf() + page@.take(
                        bytes_read as int,
                    )
                },
            },
    {
        let ghost buf0 = self.buf@;
        let mut m: usize = 0;
        while m < bytes_read
            invariant
                m <= bytes_read,
                self.buf@ == buf0 + page@.take(m as int),
                forall|mm: int| 0 <= mm < m ==> page@[mm] != LINE_DELIMITER,
            decreases bytes_read - m,
        {
            let byte = page[m];
            if byte == LINE_DELIMITER {
                return Some(m);
            }
            self.buf.push(byte);
            proof {
                assert(self.buf@ =~= buf0 + page@.take(m + 1));
            }
            m = m + 1;
        }
        None
    }

    /// The bytes collected for the line.
    pub fn into_bytes(self) -> (b: Vec<u8>)
        ensures
            b@ == self.spec_buf(),
    {
        self.buf
    }
}

/// The line `n` can be served from content `c`: `n` names a complete,
/// delimiter-terminated line whose bytes are ASCII text.
pub open spec fn read_ok(c: Seq<u8>, n: u64) -> bool {
    &&& 1 <= n <= count_nl(c)
    &&& all_ascii(line_seq(c, n as int - 1))
}

/// Every complete line of an all-ASCII file is servable. Together with
/// `Storage::read`'s contract this says that, for a delimiter-terminated
/// ASCII file, reading any line number from one up to the line count returns
/// exactly that line's text.
pub proof fn lemma_read_ok_on_ascii(c: Seq<u8>, n: u64)
    requires
        all_ascii(c),
        1 <= n <= count_nl(c),
    ensures
        read_ok(c, n),
{
    let i = n as int - 1;
    lemma_line_start_exists(c, i);
    lemma_line_end_exists(c, i);
    let p = choose|p: int| is_line_start(c, i, p);
    let e = choose|e: int| is_line_end(c, i, e);
    lemma_no_delim_between(c, i, p, e);
    lemma_line_seq_is(c, i, p, e);
    assert forall|t: int| 0 <= t < line_seq(c, i).len() implies line_seq(c, i)[t] < 128 by {
        assert(line_seq(c, i)[t] == c[p + t]);
    }
}

/// Owns the backing file's path and its index; shared read-only by every
/// session for the lifetime of the process.
pub struct Storage {
    path: String,
    index: Index,
}

impl Storage {
    pub closed spec fn spec_index(self) -> Index {
        self.index
    }

    pub closed spec fn spec_path(self) -> Seq<char> {
        self.path@
    }

    pub open spec fn consistent_with(self, c: Seq<u8>) -> bool {
        self.spec_index().consistent_with(c)
    }

    /// Assemble storage over an already-built index for the file at `path`.
    pub fn new(path: String, index: Index) -> (s: Storage)
        ensures
            s.spec_index() == index,
            s.spec_path() == path@,
    {
        Storage { path, index }
    }

    pub fn path(&self) -> (p: &String)
        ensures
            p@ == self.spec_path(),
    {
        &self.path
    }

    pub fn index(&self) -> (i: &Index)
        ensures
            *i == self.spec_index(),
    {
        &self.index
    }

    /// Skip-scan: starting at `from_offset`, consume pages while counting
    /// delimiters until `lines_to_skip` of them have been passed; the offset
    /// returned sits right after the last one. Absent when the file ends
    /// first.
    #[verifier::loop_isolation(false)]
    pub fn find_line_offset(content: &Vec<u8>, from_offset: u64, lines_to_skip: u64) -> (r: Option<
        u64,
    >)
        requires
            from_offset <= content@.len(),
        ensures
            match r {
                Some(off) => {
                    &&& from_offset <= off <= content@.len()
                    &&& count_nl(content@.take(off as int)) == count_nl(
                        content@.take(from_offset as int),
                    ) + lines_to_skip
                    &&& (lines_to_skip > 0 ==> off > 0 && content@[off as int - 1]
                        == LINE_DELIMITER)
                    &&& (lines_to_skip == 0 ==> off == from_offset)
                },
                None => count_nl(content@) < count_nl(content@.take(from_offset as int))
                    + lines_to_skip,
            },
    {
        let ghost c = content@;
        let content_len = content.len();
        proof {
            assert(c.len() == content_len);
        }
        let mut scan = SkipScan::new(from_offset, lines_to_skip);
        while !scan.done()
            invariant
                from_offset <= scan.spec_offset() <= c.len(),
                scan.spec_lines_to_skip() <= lines_to_skip,
                count_nl(c.take(scan.spec_offset() as int)) == count_nl(
                    c.take(from_offset as int),
                ) + (lines_to_skip - scan.spec_lines_to_skip()),
                scan.spec_lines_to_skip() == 0 && lines_to_skip > 0 ==> scan.spec_offset() > 0
                    && c[scan.spec_offset() as int - 1] == LINE_DELIMITER,
                scan.spec_lines_to_skip() == 0 && lines_to_skip == 0 ==> scan.spec_offset()
                    == from_offset,
            decreases c.len() - scan.spec_offset(),
        {
            let page = read_page(content, scan.offset());
            let n = page.len();
            if n == 0 {
                proof {
                    assert(c.take(c.len() as int) =~= c);
                }
                return None;
            }
            let ghost off_before = scan.spec_offset();
            scan.feed(&page, n);
            proof {
                let p = page@.take(n as int);
                assert(p =~= page@);
                let consumed = scan.spec_offset() - off_before;
                assert(c.take(scan.spec_offset() as int) =~= c.take(off_before as int) + p.take(
                    consumed as int,
                ));
                lemma_count_nl_concat(c.take(off_before as int), p.take(consumed as int));
                if scan.spec_lines_to_skip() == 0 {
                    assert(c[scan.spec_offset() as int - 1] == p[consumed - 1]);
                }
            }
        }
        Some(scan.offset())
    }

    /// Line materialization: collect the bytes from `offset` forward to the
    /// next delimiter and decode them as text. Absent when the file ends
    /// without a delimiter or the line's bytes are not ASCII text.
    #[verifier::loop_isolation(false)]
    pub fn read_line(content: &Vec<u8>, offset: u64) -> (r: Option<String>)
        requires
            offset <= content@.len(),
        ensures
            match r {
                Some(l) => exists|e: int|
                    {
                        &&& #[trigger] is_first_delim_from(content@, offset as int, e)
                        &&& all_ascii(content@.subrange(offset as int, e))
                        &&& l@ == ascii_chars(content@.subrange(offset as int, e))
                    },
                None => {
                    ||| (forall|m: int|
                        offset <= m < content@.len() ==> content@[m] != LINE_DELIMITER)
                    ||| exists|e: int|
                        #[trigger] is_first_delim_from(content@, offset as int, e) && !all_ascii(
                            content@.subrange(offset as int, e),
                        )
                },
            },
    {
        let ghost c = content@;
        let content_len = content.len();
        proof {
            assert(c.len() == content_len);
        }
        let mut scan = LineScan::new();
        let mut pos = offset;
        loop
            invariant
                offset <= pos <= c.len(),
                pos == offset + scan.spec_buf().len(),
                scan.spec_buf() == c.subrange(offset as int, pos as int),
                forall|m: int| offset <= m < pos ==> c[m] != LINE_DELIMITER,
            decreases c.len() - pos,
        {
            let page = read_page(content, pos);
            let n = page.len();
            if n == 0 {
                return None;
            }
            let found = scan.feed(&page, n);
            match found {
                Some(rel) => {
                    let ghost e = pos as int + rel;
                    proof {
                        assert(c[e] == page@[rel as int]);
                        assert forall|m: int| offset <= m < e implies c[m] != LINE_DELIMITER by {
                            if pos <= m {
                                assert(c[m] == page@[m - pos]);
                            }
                        }
                        assert(is_first_delim_from(c, offset as int, e));
                        assert(scan.spec_buf() =~= c.subrange(offset as int, e));
                    }
                    let bytes = scan.into_bytes();
                    if check_ascii(&bytes) {
                        return Some(ascii_to_string(bytes));
                    } else {
                        return None;
                    }
                },
                None => {
                    proof {
                        assert forall|m: int| offset <= m < pos + n implies c[m]
                            != LINE_DELIMITER by {
                            if pos <= m {
                                assert(c[m] == page@[m - pos]);
                            }
                        }
                        assert(scan.spec_buf() =~= c.subrange(offset as int, pos as int + n));
                    }
                    pos = pos + (n as u64);
                },
            }
        }
    }

    /// Serve the 1-based line `line_number` of the backing file, whose bytes
    /// are `content`: present exactly for the complete, ASCII lines of the
    /// file, and then carrying exactly the line's text without its delimiter.
    pub fn read(&self, content: &Vec<u8>, line_number: u64) -> (r: Option<String>)
        requires
            self.consistent_with(content@),
        ensures
            r is Some <==> read_ok(content@, line_number),
            r matches Some(l) ==> l@ == ascii_chars(line_seq(content@, line_number as int - 1)),
    {
        let ghost c = content@;
        if line_number == 0 {
            return None;
        }
        match self.index.resolve(line_number) {
            None => {
                proof {
                    self.index.lemma_resolve_none(c, line_number);
                }
                None
            },
            Some((sampled, offset)) => {
                proof {
                    self.index.lemma_resolve_some(c, line_number, sampled, offset);
                }
                let lines_to_skip = line_number - sampled;
                match Self::find_line_offset(content, offset, lines_to_skip) {
                    None => {
                        proof {
                            assert(count_nl(c) < line_number);
                        }
                        None
                    },
                    Some(line_off) => {
                        proof {
                            assert(count_nl(c.take(line_off as int)) == line_number as int - 1);
                            assert(is_line_start(c, line_number as int - 1, line_off as int));
                        }
                        let res = Self::read_line(content, line_off);
                        match res {
                            Some(l) => {
                                proof {
                                    let e = choose|e: int|
                                        #![auto]
                                        is_first_delim_from(c, line_off as int, e) && all_ascii(
                                            c.subrange(line_off as int, e),
                                        ) && l@ == ascii_chars(c.subrange(line_off as int, e));
                                    crate::lines::lemma_count_nl_zero(
                                        c.subrange(line_off as int, e),
                                    );
                                    assert(c.take(e) =~= c.take(line_off as int) + c.subrange(
                                        line_off as int,
                                        e,
                                    ));
                                    lemma_count_nl_concat(
                                        c.take(line_off as int),
                                        c.subrange(line_off as int, e),
                                    );
                                    assert(is_line_end(c, line_number as int - 1, e));
                                    lemma_line_seq_is(
                                        c,
                                        line_number as int - 1,
                                        line_off as int,
                                        e,
                                    );
                                    lemma_count_nl_push(c, e);
                                    lemma_count_nl_mono(c, e + 1, c.len() as int);
                                    assert(c.take(c.len() as int) =~= c);
                                    assert(read_ok(c, line_number));
                                }
                                Some(l)
                            },
                            None => {
                                proof {
                                    if forall|m: int|
                                        line_off <= m < c.len() ==> c[m] != LINE_DELIMITER {
                                        crate::lines::lemma_count_nl_zero(
                                            c.subrange(line_off as int, c.len() as int),
                                        );
                                        assert(c.take(c.len() as int) =~= c.take(line_off as int)
                                            + c.subrange(line_off as int, c.len() as int));
                                        lemma_count_nl_concat(
                                            c.take(line_off as int),
                                            c.subrange(line_off as int, c.len() as int),
                                        );
                                        assert(c.take(c.len() as int) =~= c);
                                        assert(count_nl(c) == line_number as int - 1);
                                        assert(!read_ok(c, line_number));
                                    } else {
                                        let e = choose|e: int|
                                            #![auto]
                                            is_first_delim_from(c, line_off as int, e)
                                                && !all_ascii(c.subrange(line_off as int, e));
                                        crate::lines::lemma_count_nl_zero(
                                            c.subrange(line_off as int, e),
                                        );
                                        assert(c.take(e) =~= c.take(line_off as int) + c.subrange(
                                            line_off as int,
                                            e,
                                        ));
                                        lemma_count_nl_concat(
                                            c.take(line_off as int),
                                            c.subrange(line_off as int, e),
                                        );
                                        assert(is_line_end(c, line_number as int - 1, e));
                                        lemma_line_seq_is(
                                            c,
                                            line_number as int - 1,
                                            line_off as int,
                                            e,
                                        );
                                        assert(!read_ok(c, line_number));
                                    }
                                }
                                None
                            },
                        }
                    },
                }
            },
        }
    }
}

} // verus!
