use vstd::prelude::*;
use crate::scan::{
    aggregate_chunk, is_first, lemma_first_exists, lemma_first_unique, lemma_scan_counts,
    lemma_scan_split, merge_results, scan_region, RecordError, NEWLINE,
};
use crate::stats::MAX_RECORDS;
use crate::table::{mergeable, AggregationTable, KeyedSummaries};

verus! {

/// The position right after the first terminator at or after `x`, or the end of `s`.
pub open spec fn align_forward(s: Seq<u8>, x: int) -> int {
    let tail = s.subrange(x, s.len() as int);
    if exists|j: int| is_first(tail, NEWLINE, j) {
        x + (choose|j: int| is_first(tail, NEWLINE, j)) + 1
    } else {
        s.len() as int
    }
}

/// Boundary `i` of `w` chunks of `s`: 0 first, the length last, and in between
/// the unaligned offset `i * (len / w)` moved forward past a terminator.
pub open spec fn chunk_boundary(s: Seq<u8>, w: int, i: int) -> int {
    if i == 0 {
        0
    } else if i == w {
        s.len() as int
    } else {
        align_forward(s, i * (s.len() as int / w))
    }
}

/// Boundaries that cut `s` into contiguous chunks, each cut at an end or right
/// after a terminator.
pub open spec fn valid_boundaries(s: Seq<u8>, b: Seq<int>) -> bool {
    &&& b.len() >= 1
    &&& b[0] == 0
    &&& b.last() == s.len()
    &&& forall|i: int, j: int| 0 <= i <= j < b.len() ==> b[i] <= b[j]
    &&& forall|i: int|
        0 < i < b.len() - 1 ==> #[trigger] b[i] == s.len() || (b[i] > 0 && s[b[i] - 1] == NEWLINE)
}

proof fn lemma_align_forward(s: Seq<u8>, x: int)
    requires
        0 <= x <= s.len(),
    ensures
        x <= align_forward(s, x) <= s.len(),
        align_forward(s, x) == s.len() || (align_forward(s, x) > 0 && s[align_forward(s, x) - 1]
            == NEWLINE),
{
    let tail = s.subrange(x, s.len() as int);
    if exists|j: int| is_first(tail, NEWLINE, j) {
        let j = choose|j: int| is_first(tail, NEWLINE, j);
        assert(s[x + j] == tail[j]);
    }
}

proof fn lemma_align_monotonic(s: Seq<u8>, x: int, y: int)
    requires
        0 <= x <= y <= s.len(),
    ensures
        align_forward(s, x) <= align_forward(s, y),
{
    let tx = s.subrange(x, s.len() as int);
    let ty = s.subrange(y, s.len() as int);
    lemma_align_forward(s, x);
    if exists|j: int| is_first(ty, NEWLINE, j) {
        let j = choose|j: int| is_first(ty, NEWLINE, j);
        assert(tx[y - x + j] == NEWLINE);
        lemma_first_exists(tx, NEWLINE, y - x + j);
        let k = choose|k: int| k <= y - x + j && is_first(tx, NEWLINE, k);
        let c = choose|c: int| is_first(tx, NEWLINE, c);
        lemma_first_unique(tx, NEWLINE, k, c);
    }
}

/// Cuts `data` into `workers` chunks: `r[i]..r[i + 1]` is chunk `i`.
pub fn plan_chunks(data: &[u8], workers: usize) -> (r: Vec<usize>)
    requires
        workers >= 1,
    ensures
        r@.len() == workers + 1,
        forall|i: int| 0 <= i <= workers ==> #[trigger] r@[i] == chunk_boundary(data@, workers as int, i),
        valid_boundaries(data@, r@.map_values(|b: usize| b as int)),
{
    let len = data.len();
    let step = len / workers;
    let mut r: Vec<usize> = Vec::new();
    r.push(0);
    let mut i: usize = 1;
    while i < workers
        invariant
            1 <= i <= workers,
            len == data@.len(),
            step == len / workers,
            r@.len() == i,
            forall|k: int| 0 <= k < i ==> #[trigger] r@[k] == chunk_boundary(data@, workers as int, k),
        decreases workers - i,
    {
        assert(i * step <= len) by (nonlinear_arith)
            requires i < workers, step == len / workers, workers >= 1;
        let x = i * step;
        let tail = vstd::slice::slice_subrange(data, x, len);
        let b = match memchr::memchr(NEWLINE, tail) {
            Some(j) => {
                proof {
                    let c = choose|c: int| is_first(tail@, NEWLINE, c);
                    lemma_first_unique(tail@, NEWLINE, j as int, c);
                }
                x + j + 1
            },
            None => {
                proof {
                    assert(!exists|c: int| is_first(tail@, NEWLINE, c));
                }
                len
            },
        };
        r.push(b);
        i = i + 1;
    }
    r.push(len);
    proof {
        let w = workers as int;
        let n = len as int;
        let b = r@.map_values(|v: usize| v as int);
        assert forall|i: int| 0 < i < w implies 0 <= #[trigger] (i * (n / w)) <= n by {
            assert(0 <= i * (n / w) <= n) by (nonlinear_arith)
                requires 0 < i < w, n >= 0;
        }
        assert forall|i: int, j: int| 0 <= i <= j <= w implies b[i] <= b[j] by {
            if 0 < i && j < w {
                assert(i * (n / w) <= j * (n / w)) by (nonlinear_arith)
                    requires i <= j, n >= 0, w >= 1;
                assert(0 <= i * (n / w));
                assert(j * (n / w) <= n);
                lemma_align_monotonic(data@, i * (n / w), j * (n / w));
            } else if 0 < i && i < w {
                assert(0 <= i * (n / w) <= n);
                lemma_align_forward(data@, i * (n / w));
            } else if j < w && 0 < j {
                assert(0 <= j * (n / w) <= n);
                lemma_align_forward(data@, j * (n / w));
            }
        }
        assert forall|i: int| 0 < i < b.len() - 1 implies #[trigger] b[i] == n || (b[i] > 0
            && data@[b[i] - 1] == NEWLINE) by {
            assert(0 <= i * (n / w) <= n);
            lemma_align_forward(data@, i * (n / w));
        }
    }
    r
}

/// The outcome of scanning the chunks `b[0]..b[1]`, ..., in order and merging.
pub open spec fn scan_chunks(s: Seq<u8>, b: Seq<int>) -> Result<KeyedSummaries, RecordError>
    decreases b.len(),
{
    if b.len() < 2 {
        Ok(Map::empty())
    } else {
        merge_results(
            scan_chunks(s, b.drop_last()),
            scan_region(s.subrange(b[b.len() - 2], b[b.len() - 1])),
        )
    }
}

/// However the input is cut into chunks at terminators, scanning the chunks
/// and merging their tables in order gives what scanning the whole input gives.
pub proof fn lemma_chunked_scan_is_whole_scan(s: Seq<u8>, b: Seq<int>)
    requires
        valid_boundaries(s, b),
    ensures
        scan_chunks(s, b) == scan_region(s),
{
    lemma_chunked_prefix(s, b, b.len() - 1);
    assert(s.subrange(0, s.len() as int) =~= s);
    assert(b.subrange(0, b.len() as int) =~= b);
}

proof fn lemma_scan_empty(e: Seq<u8>)
    requires
        e.len() == 0,
    ensures
        scan_region(e) == Ok::<KeyedSummaries, RecordError>(Map::empty()),
{
    assert(!exists|c: int| is_first(e, NEWLINE, c));
    assert(crate::scan::lines(e) =~= Seq::<Seq<u8>>::empty());
}

/// Scanning `s[0..hi]` is merging the scans of `s[0..c]` and `s[c..hi]`.
proof fn lemma_scan_step(s: Seq<u8>, c: int, hi: int)
    requires
        0 <= c <= hi <= s.len(),
        c == 0 || c == s.len() || s[c - 1] == NEWLINE,
    ensures
        scan_region(s.subrange(0, hi)) == merge_results(
            scan_region(s.subrange(0, c)),
            scan_region(s.subrange(c, hi)),
        ),
{
    let u = s.subrange(0, hi);
    if c > 0 && c < hi {
        assert(u[c - 1] == s[c - 1]);
    }
    if c == s.len() {
        assert(c == hi);
    }
    lemma_scan_split(u, c);
    assert(u.subrange(0, c) =~= s.subrange(0, c));
    assert(u.subrange(c, u.len() as int) =~= s.subrange(c, hi));
}

/// The first `m + 1` boundaries cut off a prefix whose scan is their chunked scan.
proof fn lemma_chunked_prefix(s: Seq<u8>, b: Seq<int>, m: int)
    requires
        valid_boundaries(s, b),
        0 <= m < b.len(),
    ensures
        scan_chunks(s, b.subrange(0, m + 1)) == scan_region(s.subrange(0, b[m])),
    decreases m,
{
    let bm = b.subrange(0, m + 1);
    if m == 0 {
        lemma_scan_empty(s.subrange(0, 0));
    } else {
        lemma_chunked_prefix(s, b, m - 1);
        assert(bm.drop_last() =~= b.subrange(0, m));
        assert(b[m - 1] <= b[m]);
        assert(b[m] <= b.last());
        let c = b[m - 1];
        assert(c == 0 || c == s.len() || s[c - 1] == NEWLINE) by {
            if m - 1 > 0 {
                assert(b[m - 1] == s.len() || (b[m - 1] > 0 && s[b[m - 1] - 1] == NEWLINE));
            }
        }
        lemma_scan_step(s, c, b[m]);
    }
}

proof fn lemma_boundary_cut(s: Seq<u8>, b: Seq<int>, j: int)
    requires
        valid_boundaries(s, b),
        0 <= j < b.len(),
    ensures
        0 <= b[j] <= s.len(),
        b[j] == 0 || b[j] == s.len() || s[b[j] - 1] == NEWLINE,
{
    assert(b[0] <= b[j]);
    assert(b[j] <= b[b.len() - 1]);
    if 0 < j < b.len() - 1 {
        assert(b[j] == s.len() || (b[j] > 0 && s[b[j] - 1] == NEWLINE));
    }
}

/// Aggregates all of `data` by scanning `workers` chunks one after another
/// and merging their tables.
pub fn aggregate_all(data: &[u8], workers: usize) -> (r: Result<AggregationTable, RecordError>)
    requires
        workers >= 1,
        data@.len() <= MAX_RECORDS,
    ensures
        match scan_region(data@) {
            Ok(m) => r matches Ok(t) && t.wf() && t@ == m,
            Err(e) => r matches Err(x) && x == e,
        },
{
    let bounds = plan_chunks(data, workers);
    let ghost b = bounds@.map_values(|v: usize| v as int);
    let mut acc = AggregationTable::new();
    let mut j: usize = 0;
    proof {
        lemma_scan_empty(data@.subrange(0, 0));
    }
    while j < workers
        invariant
            0 <= j <= workers,
            bounds@.len() == workers + 1,
            b == bounds@.map_values(|v: usize| v as int),
            valid_boundaries(data@, b),
            data@.len() <= MAX_RECORDS,
            acc.wf(),
            scan_region(data@.subrange(0, b[j as int])) == Ok::<KeyedSummaries, RecordError>(acc@),
        decreases workers - j,
    {
        let lo = bounds[j];
        let hi = bounds[j + 1];
        proof {
            assert(b[j as int] <= b[j + 1]);
        }
        let part = aggregate_chunk(data, lo, hi);
        proof {
            lemma_boundary_cut(data@, b, j as int);
            lemma_boundary_cut(data@, b, j + 1);
            lemma_scan_step(data@, lo as int, hi as int);
        }
        match part {
            Err(e) => {
                proof {
                    lemma_scan_step(data@, hi as int, data@.len() as int);
                    assert(data@.subrange(0, data@.len() as int) =~= data@);
                }
                return Err(e);
            },
            Ok(t) => {
                proof {
                    lemma_scan_counts(data@.subrange(0, lo as int));
                    lemma_scan_counts(data@.subrange(lo as int, hi as int));
                    assert(mergeable(acc@, t@)) by {
                        assert forall|k: Seq<u8>| acc@.contains_key(k) && t@.contains_key(k)
                            implies #[trigger] acc@[k].count + t@[k].count <= MAX_RECORDS by {
                            assert(acc@[k].count <= lo);
                            assert(t@[k].count <= hi - lo);
                        }
                    }
                }
                acc.merge_from(&t);
            },
        }
        j = j + 1;
    }
    proof {
        assert(data@.subrange(0, data@.len() as int) =~= data@);
    }
    Ok(acc)
}

} // verus!
