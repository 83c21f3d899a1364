use vstd::prelude::*;
use crate::decode::{MINUS, POINT, ZERO_DIGIT};
use crate::scan::{DELIMITER, NEWLINE};
use crate::stats::{summary_wf, Summary, MAX_RECORDS};
use crate::chunk::aggregate_all;
use crate::scan::{scan_region, RecordError};
use crate::table::{AggregationTable, KeyedSummaries};

verus! {

/// `a` comes strictly before `b` in byte-lexicographic order.
pub open spec fn lex_lt(a: Seq<u8>, b: Seq<u8>) -> bool
    decreases a.len(),
{
    if a.len() == 0 {
        b.len() > 0
    } else if b.len() == 0 {
        false
    } else if a[0] != b[0] {
        a[0] < b[0]
    } else {
        lex_lt(a.drop_first(), b.drop_first())
    }
}

/// Two different byte strings are ordered one way or the other.
pub proof fn lemma_lex_total(a: Seq<u8>, b: Seq<u8>)
    requires
        a != b,
    ensures
        lex_lt(a, b) || lex_lt(b, a),
    decreases a.len(),
{
    if a.len() == 0 && b.len() == 0 {
        assert(a =~= b);
    }
    if a.len() > 0 && b.len() > 0 && a[0] == b[0] {
        if a.drop_first() == b.drop_first() {
            assert(a =~= seq![a[0]] + a.drop_first());
            assert(b =~= seq![b[0]] + b.drop_first());
        }
        lemma_lex_total(a.drop_first(), b.drop_first());
    }
}

/// Compares two byte strings in byte-lexicographic order.
pub fn key_less(a: &[u8], b: &[u8]) -> (r: bool)
    ensures
        r == lex_lt(a@, b@),
{
    let n = a.len();
    let m = b.len();
    let mut i: usize = 0;
    proof {
        assert(a@.subrange(0, n as int) =~= a@);
        assert(b@.subrange(0, m as int) =~= b@);
    }
    while i < n && i < m && a[i] == b[i]
        invariant
            i <= n,
            i <= m,
            n == a@.len(),
            m == b@.len(),
            lex_lt(a@, b@) == lex_lt(a@.subrange(i as int, n as int), b@.subrange(i as int, m as int)),
        decreases n - i,
    {
        proof {
            assert(a@.subrange(i as int, n as int).drop_first() =~= a@.subrange(i + 1, n as int));
            assert(b@.subrange(i as int, m as int).drop_first() =~= b@.subrange(i + 1, m as int));
        }
        i = i + 1;
    }
    if i == n {
        i < m
    } else if i == m {
        false
    } else {
        a[i] < b[i]
    }
}

/// The decimal digits of `n`, most significant first.
pub open spec fn decimal(n: nat) -> Seq<u8>
    decreases n,
{
    if n < 10 {
        seq![(ZERO_DIGIT + n) as u8]
    } else {
        decimal(n / 10).push((ZERO_DIGIT + n % 10) as u8)
    }
}

pub open spec fn abs(v: int) -> nat {
    if v < 0 {
        (-v) as nat
    } else {
        v as nat
    }
}

/// Tenths `v` written as a decimal with one fractional digit, e.g. `-5` as `-0.5`.
pub open spec fn render_tenths(v: int) -> Seq<u8> {
    let m = abs(v);
    (if v < 0 {
        seq![MINUS]
    } else {
        Seq::empty()
    }) + decimal(m / 10) + seq![POINT, (ZERO_DIGIT + m % 10) as u8]
}

/// Integer division rounding toward zero.
pub open spec fn trunc_div(s: int, c: int) -> int {
    if s >= 0 {
        s / c
    } else {
        -((-s) / c)
    }
}

/// The average of a summary in tenths, rounded toward zero.
pub open spec fn average(s: Summary) -> int {
    trunc_div(s.sum, s.count as int)
}

/// `<key>;<min>;<max>;<avg>` and a terminator.
pub open spec fn report_line(k: Seq<u8>, s: Summary) -> Seq<u8> {
    k + seq![DELIMITER] + render_tenths(s.min) + seq![DELIMITER] + render_tenths(s.max) + seq![
        DELIMITER,
    ] + render_tenths(average(s)) + seq![NEWLINE]
}

/// The bytes of `Station;Min;Max;Avg` and a terminator.
pub open spec fn header() -> Seq<u8> {
    seq![83u8, 116, 97, 116, 105, 111, 110, 59, 77, 105, 110, 59, 77, 97, 120, 59, 65, 118, 103, 10]
}

/// The lines of the keys `ks`, in that order.
pub open spec fn report_body(m: KeyedSummaries, ks: Seq<Seq<u8>>) -> Seq<u8>
    decreases ks.len(),
{
    if ks.len() == 0 {
        Seq::empty()
    } else {
        report_body(m, ks.drop_last()) + report_line(ks.last(), m[ks.last()])
    }
}

/// `ks` lists every key of `m` once, in increasing byte-lexicographic order.
pub open spec fn sorted_keys_of(m: KeyedSummaries, ks: Seq<Seq<u8>>) -> bool {
    &&& ks.len() == m.dom().len()
    &&& forall|i: int| 0 <= i < ks.len() ==> m.contains_key(#[trigger] ks[i])
    &&& forall|k: Seq<u8>| m.contains_key(k) ==> ks.contains(k)
    &&& forall|i: int| 0 <= i < ks.len() - 1 ==> lex_lt(#[trigger] ks[i], ks[i + 1])
}

/// Appends the decimal digits of `n`.
fn push_decimal(out: &mut Vec<u8>, n: u64)
    ensures
        final(out)@ == old(out)@ + decimal(n as nat),
    decreases n,
{
    if n >= 10 {
        push_decimal(out, n / 10);
    }
    out.push(ZERO_DIGIT + (n % 10) as u8);
    proof {
        if n >= 10 {
            assert(old(out)@ + decimal(n as nat) =~= old(out)@ + decimal((n / 10) as nat) + seq![
                (ZERO_DIGIT + n % 10) as u8,
            ]);
        } else {
            assert(old(out)@ + decimal(n as nat) =~= old(out)@ + seq![(ZERO_DIGIT + n % 10) as u8]);
        }
    }
}

/// Appends tenths `v` written with one fractional digit.
pub fn push_tenths(out: &mut Vec<u8>, v: i64)
    requires
        v > i64::MIN,
    ensures
        final(out)@ == old(out)@ + render_tenths(v as int),
{
    let m: u64 = if v < 0 {
        (-v) as u64
    } else {
        v as u64
    };
    if v < 0 {
        out.push(MINUS);
    }
    let ghost signed = out@;
    push_decimal(out, m / 10);
    out.push(POINT);
    out.push(ZERO_DIGIT + (m % 10) as u8);
    proof {
        assert(m as nat == abs(v as int));
        if v < 0 {
            assert(signed == old(out)@ + seq![MINUS]);
        } else {
            assert(signed =~= old(out)@ + Seq::<u8>::empty());
        }
        assert(out@ =~= old(out)@ + render_tenths(v as int));
    }
}

/// The average of well-formed statistics in tenths, rounded toward zero.
pub fn average_tenths(s: &crate::stats::StationStats) -> (r: i64)
    requires
        summary_wf(s@),
    ensures
        r == average(s@),
        -999 <= r <= 999,
{
    proof {
        crate::stats::lemma_summary_sum_bounds(s@);
    }
    let c = s.count;
    let neg = s.sum < 0;
    let mag: u64 = if neg {
        (-s.sum) as u64
    } else {
        s.sum as u64
    };
    let q = mag / c;
    proof {
        let sm = s@;
        if neg {
            assert(-sm.sum <= 999 * sm.count) by (nonlinear_arith)
                requires sm.count * sm.min <= sm.sum, sm.min >= -999, sm.count >= 1;
            assert(q <= 999) by (nonlinear_arith)
                requires q == mag / c, mag <= 999 * c, c >= 1;
        } else {
            assert(sm.sum <= 999 * sm.count) by (nonlinear_arith)
                requires sm.sum <= sm.count * sm.max, sm.max <= 999, sm.count >= 1;
            assert(q <= 999) by (nonlinear_arith)
                requires q == mag / c, mag <= 999 * c, c >= 1;
        }
    }
    if neg {
        -(q as i64)
    } else {
        q as i64
    }
}

/// The report line of one key.
fn push_line(out: &mut Vec<u8>, key: &[u8], s: &crate::stats::StationStats)
    requires
        summary_wf(s@),
    ensures
        final(out)@ == old(out)@ + report_line(key@, s@),
{
    let mut i: usize = 0;
    while i < key.len()
        invariant
            i <= key@.len(),
            out@ == old(out)@ + key@.subrange(0, i as int),
        decreases key@.len() - i,
    {
        out.push(key[i]);
        proof {
            assert(key@.subrange(0, i + 1) =~= key@.subrange(0, i as int).push(key@[i as int]));
        }
        i = i + 1;
    }
    proof {
        assert(key@.subrange(0, key@.len() as int) =~= key@);
    }
    let avg = average_tenths(s);
    let ghost a0 = out@;
    out.push(DELIMITER);
    push_tenths(out, s.min);
    out.push(DELIMITER);
    push_tenths(out, s.max);
    out.push(DELIMITER);
    push_tenths(out, avg);
    out.push(NEWLINE);
    proof {
        assert(out@ =~= old(out)@ + report_line(key@, s@));
    }
}

/// `x` occurs in `s`.
pub open spec fn lists(s: Seq<usize>, x: int) -> bool {
    exists|q: int| 0 <= q < s.len() && s[q] == x
}

/// The positions of the table's keys (in order of first appearance), sorted
/// by key in byte-lexicographic order.
pub fn sorted_positions(t: &AggregationTable) -> (r: Vec<usize>)
    requires
        t.wf(),
    ensures
        r@.len() == t.key_seq().len(),
        forall|q: int| 0 <= q < r@.len() ==> #[trigger] r@[q] < t.key_seq().len(),
        forall|x: int| 0 <= x < t.key_seq().len() ==> #[trigger] lists(r@, x),
        forall|q: int|
            0 <= q < r@.len() - 1 ==> lex_lt(t.key_seq()[#[trigger] r@[q] as int], t.key_seq()[r@[q + 1] as int]),
{
    proof {
        t.lemma_key_seq();
    }
    let n = t.len();
    let ghost ks = t.key_seq();
    let mut order: Vec<usize> = Vec::new();
    let mut i: usize = 0;
    while i < n
        invariant
            i <= n,
            n == ks.len(),
            ks == t.key_seq(),
            t.wf(),
            forall|a: int, b: int| 0 <= a < b < n ==> ks[a] != ks[b],
            order@.len() == i,
            forall|q: int| 0 <= q < order@.len() ==> #[trigger] order@[q] < i,
            forall|x: int| 0 <= x < i ==> #[trigger] lists(order@, x),
            forall|q: int|
                0 <= q < order@.len() - 1 ==> lex_lt(ks[#[trigger] order@[q] as int], ks[order@[q + 1] as int]),
        decreases n - i,
    {
        let key = t.key_at(i);
        let mut p: usize = 0;
        while p < order.len() && !key_less(key, t.key_at(order[p]))
            invariant
                p <= order@.len(),
                i < n,
                n == ks.len(),
                ks == t.key_seq(),
                t.wf(),
                key@ == ks[i as int],
                forall|q: int| 0 <= q < order@.len() ==> #[trigger] order@[q] < i,
                forall|q: int| 0 <= q < p ==> !lex_lt(ks[i as int], ks[#[trigger] order@[q] as int]),
            decreases order@.len() - p,
        {
            p = p + 1;
        }
        proof {
            if p > 0 {
                let prev = order@[p - 1] as int;
                assert(!lex_lt(ks[i as int], ks[prev]));
                assert(ks[prev] != ks[i as int]);
                lemma_lex_total(ks[prev], ks[i as int]);
            }
        }
        let ghost before = order@;
        order.insert(p, i);
        proof {
            assert forall|x: int| 0 <= x < i + 1 implies #[trigger] lists(order@, x) by {
                if x == i {
                    assert(order@[p as int] == x);
                } else {
                    assert(lists(before, x));
                    let q0 = choose|q: int| 0 <= q < before.len() && #[trigger] before[q] == x;
                    if q0 < p {
                        assert(order@[q0] == x);
                    } else {
                        assert(order@[q0 + 1] == x);
                    }
                }
            }
            assert forall|q: int| 0 <= q < order@.len() - 1 implies lex_lt(
                ks[#[trigger] order@[q] as int],
                ks[order@[q + 1] as int],
            ) by {
                if q + 1 < p {
                    assert(order@[q] == before[q] && order@[q + 1] == before[q + 1]);
                } else if q + 1 == p {
                } else if q == p {
                    assert(order@[q + 1] == before[p as int]);
                } else {
                    assert(order@[q] == before[q - 1] && order@[q + 1] == before[q]);
                }
            }
        }
        i = i + 1;
    }
    order
}

/// Renders the table as the report: the header, then one line per key in
/// increasing byte-lexicographic order of keys.
pub fn render_report(t: &AggregationTable) -> (r: Vec<u8>)
    requires
        t.wf(),
    ensures
        exists|ks: Seq<Seq<u8>>| sorted_keys_of(t@, ks) && r@ == header() + report_body(t@, ks),
{
    proof {
        t.lemma_key_seq();
    }
    let order = sorted_positions(t);
    let ghost kseq = t.key_seq();
    let ghost ks = order@.map_values(|x: usize| kseq[x as int]);
    let mut out: Vec<u8> = vec![83u8, 116, 97, 116, 105, 111, 110, 59, 77, 105, 110, 59, 77, 97, 120, 59, 65, 118, 103, 10];
    proof {
        assert(out@ =~= header());
    }
    let mut j: usize = 0;
    while j < order.len()
        invariant
            j <= order@.len(),
            t.wf(),
            kseq == t.key_seq(),
            ks == order@.map_values(|x: usize| kseq[x as int]),
            forall|q: int| 0 <= q < order@.len() ==> #[trigger] order@[q] < kseq.len(),
            out@ == header() + report_body(t@, ks.subrange(0, j as int)),
        decreases order@.len() - j,
    {
        let pos = order[j];
        let s = t.stats_at(pos);
        push_line(&mut out, t.key_at(pos), &s);
        proof {
            assert(ks.subrange(0, j + 1).drop_last() =~= ks.subrange(0, j as int));
            assert(ks[j as int] == kseq[pos as int]);
        }
        j = j + 1;
    }
    proof {
        assert(ks.subrange(0, ks.len() as int) =~= ks);

        assert forall|k: Seq<u8>| t@.contains_key(k) implies ks.contains(k) by {
            assert(kseq.contains(k));
            let x = choose|x: int| 0 <= x < kseq.len() && kseq[x] == k;
            assert(lists(order@, x));
            let q = choose|q: int| 0 <= q < order@.len() && #[trigger] order@[q] == x;
            assert(ks[q] == k);
        }
        assert forall|i: int| 0 <= i < ks.len() implies t@.contains_key(#[trigger] ks[i]) by {
            assert(kseq.contains(ks[i]));
        }
        assert(sorted_keys_of(t@, ks));
    }
    out
}

/// Byte-lexicographic order is irreflexive.
pub proof fn lemma_lex_irreflexive(a: Seq<u8>)
    ensures
        !lex_lt(a, a),
    decreases a.len(),
{
    if a.len() > 0 {
        lemma_lex_irreflexive(a.drop_first());
    }
}

/// Byte-lexicographic order is transitive.
pub proof fn lemma_lex_transitive(a: Seq<u8>, b: Seq<u8>, c: Seq<u8>)
    requires
        lex_lt(a, b),
        lex_lt(b, c),
    ensures
        lex_lt(a, c),
    decreases a.len(),
{
    if a.len() > 0 && a[0] == b[0] && b[0] == c[0] {
        lemma_lex_transitive(a.drop_first(), b.drop_first(), c.drop_first());
    }
}

proof fn lemma_sorted_global(ks: Seq<Seq<u8>>, i: int, j: int)
    requires
        forall|q: int| 0 <= q < ks.len() - 1 ==> lex_lt(#[trigger] ks[q], ks[q + 1]),
        0 <= i < j < ks.len(),
    ensures
        lex_lt(ks[i], ks[j]),
    decreases j - i,
{
    if j > i + 1 {
        lemma_sorted_global(ks, i, j - 1);
        assert(lex_lt(ks[j - 1], ks[j]));
        lemma_lex_transitive(ks[i], ks[j - 1], ks[j]);
    }
}

proof fn lemma_sorted_prefix_equal(m: KeyedSummaries, k1: Seq<Seq<u8>>, k2: Seq<Seq<u8>>, n: int)
    requires
        sorted_keys_of(m, k1),
        sorted_keys_of(m, k2),
        0 <= n <= k1.len(),
    ensures
        forall|i: int| 0 <= i < n ==> k1[i] == k2[i],
    decreases n,
{
    if n > 0 {
        let i = n - 1;
        lemma_sorted_prefix_equal(m, k1, k2, i);
        if k1[i] != k2[i] {
            assert(m.contains_key(k1[i]));
            assert(m.contains_key(k2[i]));
            assert(k2.contains(k1[i]));
            assert(k1.contains(k2[i]));
            let j2 = choose|j: int| 0 <= j < k2.len() && k2[j] == k1[i];
            let j1 = choose|j: int| 0 <= j < k1.len() && k1[j] == k2[i];
            if j2 < i {
                assert(k1[j2] == k2[j2]);
                lemma_sorted_global(k1, j2, i);
                lemma_lex_irreflexive(k1[i]);
            } else if j1 < i {
                assert(k2[j1] == k1[j1]);
                lemma_sorted_global(k2, j1, i);
                lemma_lex_irreflexive(k2[i]);
            } else {
                lemma_sorted_global(k2, i, j2);
                lemma_sorted_global(k1, i, j1);
                lemma_lex_transitive(k2[i], k1[i], k2[i]);
                lemma_lex_irreflexive(k2[i]);
            }
        }
    }
}

/// A table has only one list of its keys in increasing order.
pub proof fn lemma_sorted_keys_unique(m: KeyedSummaries, k1: Seq<Seq<u8>>, k2: Seq<Seq<u8>>)
    requires
        sorted_keys_of(m, k1),
        sorted_keys_of(m, k2),
    ensures
        k1 == k2,
{
    lemma_sorted_prefix_equal(m, k1, k2, k1.len() as int);
    assert(k1 =~= k2);
}

/// The report of a table is determined by its view: two tables with equal
/// views render to the same bytes, whatever order their keys were met in.
pub proof fn lemma_report_determined(
    m: KeyedSummaries,
    r1: Seq<u8>,
    r2: Seq<u8>,
)
    requires
        exists|ks: Seq<Seq<u8>>| sorted_keys_of(m, ks) && r1 == header() + report_body(m, ks),
        exists|ks: Seq<Seq<u8>>| sorted_keys_of(m, ks) && r2 == header() + report_body(m, ks),
    ensures
        r1 == r2,
{
    let k1 = choose|ks: Seq<Seq<u8>>| sorted_keys_of(m, ks) && r1 == header() + report_body(m, ks);
    let k2 = choose|ks: Seq<Seq<u8>>| sorted_keys_of(m, ks) && r2 == header() + report_body(m, ks);
    lemma_sorted_keys_unique(m, k1, k2);
}

/// The report of a whole input, or the error of its first bad record.
pub open spec fn report_of(data: Seq<u8>, r: Result<Vec<u8>, RecordError>) -> bool {
    match scan_region(data) {
        Ok(m) => r matches Ok(out) && exists|ks: Seq<Seq<u8>>|
            sorted_keys_of(m, ks) && out@ == header() + report_body(m, ks),
        Err(e) => r matches Err(x) && x == e,
    }
}

/// Aggregates `data` in `workers` chunks and renders the report.
pub fn station_report(data: &[u8], workers: usize) -> (r: Result<Vec<u8>, RecordError>)
    requires
        workers >= 1,
        data@.len() <= MAX_RECORDS,
    ensures
        report_of(data@, r),
{
    match aggregate_all(data, workers) {
        Ok(t) => Ok(render_report(&t)),
        Err(e) => Err(e),
    }
}

/// Aggregating the same input with any two numbers of workers gives the same
/// report, byte for byte.
pub proof fn lemma_report_independent_of_workers(
    data: Seq<u8>,
    r1: Result<Vec<u8>, RecordError>,
    r2: Result<Vec<u8>, RecordError>,
)
    requires
        report_of(data, r1),
        report_of(data, r2),
    ensures
        match r1 {
            Ok(o1) => r2 matches Ok(o2) && o1@ == o2@,
            Err(e1) => r2 matches Err(e2) && e1 == e2,
        },
{
    if let Ok(m) = scan_region(data) {
        let o1 = r1->Ok_0;
        let o2 = r2->Ok_0;
        lemma_report_determined(m, o1@, o2@);
    }
}

} // verus!
