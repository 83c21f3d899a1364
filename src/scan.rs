use vstd::prelude::*;
use crate::decode::{decode_tenths, lemma_decoded_range, FixedPointNum};
use crate::stats::MAX_RECORDS;
use crate::table::AggregationTable;
use crate::stats::{single, Summary};
use crate::table::{absorb_map, merge_maps, KeyedSummaries, lemma_merge_associative, lemma_merge_identity};

verus! {

/// The record terminator `\n`.
pub const NEWLINE: u8 = 10;

/// The field delimiter `;`.
pub const DELIMITER: u8 = 59;

/// Why a region of input could not be aggregated.
#[derive(Debug, Clone, Copy, PartialEq, Eq, Structural)]
pub enum RecordError {
    /// A record holds no delimiter.
    MalformedRecord,
    /// A record's value is outside the numeric grammar.
    ParseError,
}

/// `i` is the position of the first `b` in `s`.
pub open spec fn is_first(s: Seq<u8>, b: u8, i: int) -> bool {
    &&& 0 <= i < s.len()
    &&& s[i] == b
    &&& forall|j: int| 0 <= j < i ==> s[j] != b
}

/// Relies on `memchr::memchr`: the index of the first occurrence of `needle`
/// in `haystack`, or `None` when it does not occur.
pub assume_specification[ memchr::memchr ](needle: u8, haystack: &[u8]) -> (r: Option<usize>)
    ensures
        match r {
            Some(i) => is_first(haystack@, needle, i as int),
            None => forall|j: int| 0 <= j < haystack@.len() ==> haystack@[j] != needle,
        },
;

/// The records of `s`: the pieces before each terminator, and a final
/// unterminated piece if it is non-empty.
pub open spec fn lines(s: Seq<u8>) -> Seq<Seq<u8>>
    decreases s.len(),
{
    if exists|i: int| is_first(s, NEWLINE, i) {
        let i = choose|i: int| is_first(s, NEWLINE, i);
        seq![s.subrange(0, i)] + lines(s.subrange(i + 1, s.len() as int))
    } else if s.len() == 0 {
        Seq::empty()
    } else {
        seq![s]
    }
}

/// A record split at its first delimiter into key and decoded value.
pub open spec fn parse_record(line: Seq<u8>) -> Result<(Seq<u8>, int), RecordError> {
    if exists|d: int| is_first(line, DELIMITER, d) {
        let d = choose|d: int| is_first(line, DELIMITER, d);
        match decode_tenths(line.subrange(d + 1, line.len() as int)) {
            Some(v) => Ok((line.subrange(0, d), v)),
            None => Err(RecordError::ParseError),
        }
    } else {
        Err(RecordError::MalformedRecord)
    }
}

/// All records parsed, or the error of the first one that fails.
pub open spec fn parse_lines(ls: Seq<Seq<u8>>) -> Result<Seq<(Seq<u8>, int)>, RecordError>
    decreases ls.len(),
{
    if ls.len() == 0 {
        Ok(Seq::empty())
    } else {
        match parse_lines(ls.drop_last()) {
            Err(e) => Err(e),
            Ok(recs) => match parse_record(ls.last()) {
                Err(e) => Err(e),
                Ok(rec) => Ok(recs.push(rec)),
            },
        }
    }
}

/// The table that folding the records in order produces.
pub open spec fn aggregate(recs: Seq<(Seq<u8>, int)>) -> KeyedSummaries
    decreases recs.len(),
{
    if recs.len() == 0 {
        Map::empty()
    } else {
        absorb_map(aggregate(recs.drop_last()), recs.last().0, recs.last().1)
    }
}

/// What scanning a region of input yields.
pub open spec fn scan_region(s: Seq<u8>) -> Result<KeyedSummaries, RecordError> {
    match parse_lines(lines(s)) {
        Ok(recs) => Ok(aggregate(recs)),
        Err(e) => Err(e),
    }
}

/// The merge of two outcomes; the first error wins.
pub open spec fn merge_results(
    a: Result<KeyedSummaries, RecordError>,
    b: Result<KeyedSummaries, RecordError>,
) -> Result<KeyedSummaries, RecordError> {
    match a {
        Err(e) => Err(e),
        Ok(x) => match b {
            Err(e) => Err(e),
            Ok(y) => Ok(merge_maps(x, y)),
        },
    }
}

pub proof fn lemma_first_unique(s: Seq<u8>, b: u8, i: int, j: int)
    requires
        is_first(s, b, i),
        is_first(s, b, j),
    ensures
        i == j,
{
    if i < j {
        assert(s[i] != b);
    } else if j < i {
        assert(s[j] != b);
    }
}

pub proof fn lemma_first_exists(s: Seq<u8>, b: u8, j: int)
    requires
        0 <= j < s.len(),
        s[j] == b,
    ensures
        exists|i: int| i <= j && is_first(s, b, i),
    decreases j,
{
    if exists|k: int| 0 <= k < j && s[k] == b {
        let k = choose|k: int| 0 <= k < j && s[k] == b;
        lemma_first_exists(s, b, k);
    } else {
        assert(is_first(s, b, j));
    }
}

/// Cutting input right after a terminator (or at either end) cuts its list
/// of records in two.
pub proof fn lemma_lines_split(u: Seq<u8>, c: int)
    requires
        0 <= c <= u.len(),
        c == 0 || c == u.len() || u[c - 1] == NEWLINE,
    ensures
        lines(u) == lines(u.subrange(0, c)) + lines(u.subrange(c, u.len() as int)),
    decreases u.len(),
{
    if c == 0 {
        assert(lines(u.subrange(0, 0)) =~= Seq::<Seq<u8>>::empty()) by {
            assert(!exists|i: int| is_first(u.subrange(0, 0), NEWLINE, i));
        }
        assert(u.subrange(0, u.len() as int) =~= u);
        assert(lines(u) =~= lines(u.subrange(0, c)) + lines(u.subrange(c, u.len() as int)));
    } else if c == u.len() {
        let e = u.subrange(c, u.len() as int);
        assert(lines(e) =~= Seq::<Seq<u8>>::empty()) by {
            assert(!exists|i: int| is_first(e, NEWLINE, i));
        }
        assert(u.subrange(0, c) =~= u);
        assert(lines(u) =~= lines(u.subrange(0, c)) + lines(u.subrange(c, u.len() as int)));
    } else {
        lemma_first_exists(u, NEWLINE, c - 1);
        let i = choose|i: int| is_first(u, NEWLINE, i);
        let k = choose|k: int| k <= c - 1 && is_first(u, NEWLINE, k);
        lemma_first_unique(u, NEWLINE, i, k);
        let p = u.subrange(0, c);
        assert(is_first(p, NEWLINE, i));
        let ip = choose|ip: int| is_first(p, NEWLINE, ip);
        lemma_first_unique(p, NEWLINE, i, ip);
        let rest = u.subrange(i + 1, u.len() as int);
        let c2 = c - i - 1;
        lemma_lines_split(rest, c2);
        assert(p.subrange(0, i) =~= u.subrange(0, i));
        assert(p.subrange(i + 1, p.len() as int) =~= rest.subrange(0, c2));
        assert(rest.subrange(c2, rest.len() as int) =~= u.subrange(c, u.len() as int));
        assert(lines(u) =~= lines(u.subrange(0, c)) + lines(u.subrange(c, u.len() as int)));
    }
}

/// There are no more records than bytes.
pub proof fn lemma_lines_len(s: Seq<u8>)
    ensures
        lines(s).len() <= s.len(),
    decreases s.len(),
{
    if exists|i: int| is_first(s, NEWLINE, i) {
        let i = choose|i: int| is_first(s, NEWLINE, i);
        lemma_lines_len(s.subrange(i + 1, s.len() as int));
    }
}

/// Parsing a concatenation parses each part; the first error wins.
pub proof fn lemma_parse_lines_concat(a: Seq<Seq<u8>>, b: Seq<Seq<u8>>)
    ensures
        parse_lines(a + b) == match parse_lines(a) {
            Err(e) => Err(e),
            Ok(ra) => match parse_lines(b) {
                Err(e) => Err(e),
                Ok(rb) => Ok(ra + rb),
            },
        },
    decreases b.len(),
{
    if b.len() == 0 {
        assert(a + b =~= a);
        if let Ok(ra) = parse_lines(a) {
            assert(ra + Seq::<(Seq<u8>, int)>::empty() =~= ra);
        }
    } else {
        lemma_parse_lines_concat(a, b.drop_last());
        assert((a + b).drop_last() =~= a + b.drop_last());
        assert((a + b).last() == b.last());
        if let Ok(ra) = parse_lines(a) {
            if let Ok(rb) = parse_lines(b.drop_last()) {
                if let Ok(rec) = parse_record(b.last()) {
                    assert(ra + rb.push(rec) =~= (ra + rb).push(rec));
                }
            }
        }
    }
}

/// A parsed list has one record per line.
pub proof fn lemma_parse_lines_len(ls: Seq<Seq<u8>>)
    ensures
        parse_lines(ls) matches Ok(recs) ==> recs.len() == ls.len(),
    decreases ls.len(),
{
    if ls.len() > 0 {
        lemma_parse_lines_len(ls.drop_last());
    }
}

/// Folding a concatenation of records is merging the folds of its parts.
pub proof fn lemma_aggregate_concat(r1: Seq<(Seq<u8>, int)>, r2: Seq<(Seq<u8>, int)>)
    ensures
        aggregate(r1 + r2) == merge_maps(aggregate(r1), aggregate(r2)),
    decreases r2.len(),
{
    if r2.len() == 0 {
        assert(r1 + r2 =~= r1);
        lemma_merge_identity(aggregate(r1));
    } else {
        lemma_aggregate_concat(r1, r2.drop_last());
        assert((r1 + r2).drop_last() =~= r1 + r2.drop_last());
        let last = r2.last();
        lemma_merge_associative(
            aggregate(r1),
            aggregate(r2.drop_last()),
            map![last.0 => single(last.1)],
        );
    }
}

/// The merge of a list of tables, first to last.
pub open spec fn merge_all(parts: Seq<KeyedSummaries>) -> KeyedSummaries
    decreases parts.len(),
{
    if parts.len() == 0 {
        Map::empty()
    } else {
        merge_maps(parts.first(), merge_all(parts.drop_first()))
    }
}

/// However a list of records is split into groups, folding each group and
/// merging the group tables gives the fold of the whole list.
pub proof fn lemma_aggregate_groups(groups: Seq<Seq<(Seq<u8>, int)>>)
    ensures
        aggregate(groups.flatten()) == merge_all(groups.map_values(|g: Seq<(Seq<u8>, int)>| aggregate(g))),
    decreases groups.len(),
{
    let parts = groups.map_values(|g: Seq<(Seq<u8>, int)>| aggregate(g));
    if groups.len() > 0 {
        lemma_aggregate_groups(groups.drop_first());
        assert(parts.drop_first() =~= groups.drop_first().map_values(|g: Seq<(Seq<u8>, int)>| aggregate(g)));
        lemma_aggregate_concat(groups.first(), groups.drop_first().flatten());
    }
}

/// Swapping two neighbouring tables in a list does not change their merge,
/// so tables may be merged in any order.
pub proof fn lemma_merge_all_swap(parts: Seq<KeyedSummaries>, i: int)
    requires
        0 <= i < parts.len() - 1,
    ensures
        merge_all(parts.update(i, parts[i + 1]).update(i + 1, parts[i])) == merge_all(parts),
    decreases i,
{
    let swapped = parts.update(i, parts[i + 1]).update(i + 1, parts[i]);
    if i == 0 {
        let rest = parts.drop_first().drop_first();
        assert(swapped.drop_first().drop_first() =~= rest);
        assert(swapped.drop_first().first() == parts[0]);
        assert(parts.drop_first().first() == parts[1]);
        lemma_merge_associative(parts[1], parts[0], merge_all(rest));
        lemma_merge_associative(parts[0], parts[1], merge_all(rest));
        crate::table::lemma_merge_commutative(parts[0], parts[1]);
        let r = merge_all(rest);
        assert(merge_all(swapped.drop_first()) == merge_maps(parts[0], r));
        assert(merge_all(parts.drop_first()) == merge_maps(parts[1], r));
        assert(merge_all(swapped) == merge_maps(parts[1], merge_maps(parts[0], r)));
    } else {
        lemma_merge_all_swap(parts.drop_first(), i - 1);
        assert(swapped.drop_first() =~= parts.drop_first().update(i - 1, parts[i + 1]).update(
            i,
            parts[i],
        ));
        assert(swapped.first() == parts.first());
    }
}

/// No key of a fold has been seen more often than there are records.
pub proof fn lemma_aggregate_counts(recs: Seq<(Seq<u8>, int)>)
    ensures
        forall|k: Seq<u8>|
            #[trigger] aggregate(recs).contains_key(k) ==> aggregate(recs)[k].count <= recs.len(),
    decreases recs.len(),
{
    if recs.len() > 0 {
        let prev = aggregate(recs.drop_last());
        lemma_aggregate_counts(recs.drop_last());
        assert forall|k: Seq<u8>| #[trigger] aggregate(recs).contains_key(k) implies aggregate(
            recs,
        )[k].count <= recs.len() by {
            if prev.contains_key(k) {
                assert(prev[k].count <= recs.len() - 1);
            }
        }
    }
}

/// Scanning input cut right after a terminator is merging the scans of the two parts.
pub proof fn lemma_scan_split(u: Seq<u8>, c: int)
    requires
        0 <= c <= u.len(),
        c == 0 || c == u.len() || u[c - 1] == NEWLINE,
    ensures
        scan_region(u) == merge_results(
            scan_region(u.subrange(0, c)),
            scan_region(u.subrange(c, u.len() as int)),
        ),
{
    let a = lines(u.subrange(0, c));
    let b = lines(u.subrange(c, u.len() as int));
    lemma_lines_split(u, c);
    lemma_parse_lines_concat(a, b);
    if let Ok(ra) = parse_lines(a) {
        if let Ok(rb) = parse_lines(b) {
            lemma_aggregate_concat(ra, rb);
        }
    }
}

/// No key of a scanned region has been seen more often than the region has bytes.
pub proof fn lemma_scan_counts(s: Seq<u8>)
    ensures
        scan_region(s) matches Ok(m) ==> forall|k: Seq<u8>|
            #[trigger] m.contains_key(k) ==> m[k].count <= s.len(),
{
    lemma_lines_len(s);
    lemma_parse_lines_len(lines(s));
    if let Ok(recs) = parse_lines(lines(s)) {
        lemma_aggregate_counts(recs);
    }
}

/// Folds the records of `data[start..end]` into a new table.
pub fn aggregate_chunk(data: &[u8], start: usize, end: usize) -> (r: Result<
    AggregationTable,
    RecordError,
>)
    requires
        start <= end <= data@.len(),
        end - start <= MAX_RECORDS,
    ensures
        match scan_region(data@.subrange(start as int, end as int)) {
            Ok(m) => r matches Ok(t) && t.wf() && t@ == m,
            Err(e) => r matches Err(x) && x == e,
        },
{
    let mut table = AggregationTable::new();
    let mut pos: usize = start;
    let ghost region = data@.subrange(start as int, end as int);
    let ghost mut done: Seq<Seq<u8>> = Seq::empty();
    let ghost mut recs: Seq<(Seq<u8>, int)> = Seq::empty();
    proof {
        assert(done + lines(region) =~= lines(region));
    }
    while pos < end
        invariant
            start <= pos <= end <= data@.len(),
            end - start <= MAX_RECORDS,
            region == data@.subrange(start as int, end as int),
            lines(region) == done + lines(data@.subrange(pos as int, end as int)),
            parse_lines(done) == Ok::<Seq<(Seq<u8>, int)>, RecordError>(recs),
            recs.len() <= pos - start,
            table.wf(),
            table@ == aggregate(recs),
        decreases end - pos,
    {
        let rest = vstd::slice::slice_subrange(data, pos, end);
        let line: &[u8];
        let next: usize;
        match memchr::memchr(NEWLINE, rest) {
            Some(i) => {
                line = vstd::slice::slice_subrange(rest, 0, i);
                next = pos + i + 1;
                proof {
                    let c = choose|c: int| is_first(rest@, NEWLINE, c);
                    lemma_first_unique(rest@, NEWLINE, i as int, c);
                    assert(rest@.subrange(i + 1, rest@.len() as int) =~= data@.subrange(
                        next as int,
                        end as int,
                    ));
                    assert(lines(rest@) == seq![line@] + lines(data@.subrange(next as int, end as int)));
                }
            },
            None => {
                line = rest;
                next = end;
                proof {
                    assert(!exists|c: int| is_first(rest@, NEWLINE, c));
                    let e = data@.subrange(end as int, end as int);
                    assert(!exists|c: int| is_first(e, NEWLINE, c));
                    assert(lines(e) =~= Seq::<Seq<u8>>::empty());
                    assert(lines(rest@) =~= seq![line@] + lines(e));
                }
            },
        }
        let ghost after = lines(data@.subrange(next as int, end as int));
        let ghost done2 = done.push(line@);
        proof {
            assert(done + (seq![line@] + after) =~= done2 + after);
            assert(done2.drop_last() =~= done);
        }
        match memchr::memchr(DELIMITER, line) {
            None => {
                proof {
                    assert(!exists|d: int| is_first(line@, DELIMITER, d));
                    lemma_parse_lines_concat(done2, after);
                }
                return Err(RecordError::MalformedRecord);
            },
            Some(d) => {
                let key = vstd::slice::slice_subrange(line, 0, d);
                let val = vstd::slice::slice_subrange(line, d + 1, line.len());
                proof {
                    let c = choose|c: int| is_first(line@, DELIMITER, c);
                    lemma_first_unique(line@, DELIMITER, d as int, c);
                }
                match FixedPointNum::parse(val) {
                    Err(_) => {
                        proof {
                            lemma_parse_lines_concat(done2, after);
                        }
                        return Err(RecordError::ParseError);
                    },
                    Ok(num) => {
                        proof {
                            lemma_decoded_range(val@);
                            lemma_aggregate_counts(recs);
                        }
                        table.absorb(key, num.0);
                        proof {
                            assert(recs.push((key@, num.0 as int)).drop_last() =~= recs);
                            recs = recs.push((key@, num.0 as int));
                            done = done2;
                        }
                    },
                }
            },
        }
        pos = next;
    }
    proof {
        let e = data@.subrange(end as int, end as int);
        assert(!exists|c: int| is_first(e, NEWLINE, c));
        assert(lines(e) =~= Seq::<Seq<u8>>::empty());
        assert(done + lines(e) =~= done);
    }
    Ok(table)
}

} // verus!
