//! Running the chunk parser over every partition and folding the partial tables
//! into one.
use vstd::prelude::*;
use rayon::iter::{IntoParallelRefIterator, ParallelIterator};
use crate::aggregate::{Aggregate, combine, summary_of, summary_of_concat, summary_is_exact};
use crate::chunk::{
    all_lines_ok, chunk_result, describes, lemma_values_len, parse_chunk, values_of, ParseError,
};
use crate::lines::{lemma_lines_len, lines};
use crate::partition::{chunk, chunk_lines, lemma_tiles_prefix, plan, tiles, tiling_keeps_lines, PartitionRange};
use crate::table::{table_get, table_insert, table_keys, table_new, KeyTable};

verus! {

/// Relies on rayon's `par_iter().map(..).collect()` over a slice: one result per
/// range, in the order of the ranges, each the one `parse_chunk` returned for it.
#[verifier::external_body]
fn parse_ranges(buf: &[u8], ranges: &Vec<PartitionRange>) -> (r: Vec<Result<KeyTable, ParseError>>)
    requires
        buf.len() < usize::MAX,
        forall|i: int| 0 <= i < ranges.len() ==> #[trigger] ranges@[i].start <= ranges@[i].end <= buf.len(),
    ensures
        r.len() == ranges.len(),
        forall|i: int| 0 <= i < ranges.len() ==> chunk_result(buf@, ranges@[i].start as int, ranges@[i].end as int, #[trigger] r@[i]),
{
    ranges.par_iter().map(|g| parse_chunk(buf, g.start, g.end)).collect()
}

pub proof fn lemma_values_concat(ls1: Seq<Seq<u8>>, ls2: Seq<Seq<u8>>, k: Seq<u8>)
    ensures
        values_of(ls1 + ls2, k) == values_of(ls1, k) + values_of(ls2, k),
    decreases ls2.len(),
{
    if ls2.len() == 0 {
        assert(ls1 + ls2 =~= ls1);
        assert(values_of(ls1, k) + values_of(ls2, k) =~= values_of(ls1, k));
    } else {
        lemma_values_concat(ls1, ls2.drop_last(), k);
        assert((ls1 + ls2).drop_last() =~= ls1 + ls2.drop_last());
        assert((ls1 + ls2).last() == ls2.last());
        let l = ls2.last();
        if crate::chunk::has_separator(l) && crate::chunk::line_key(l) == k {
            assert(values_of(ls1, k) + values_of(ls2, k) =~= (values_of(ls1, k) + values_of(ls2.drop_last(), k)).push(
                crate::chunk::line_value(l).unwrap()));
        }
    }
}

pub proof fn lemma_all_ok_concat(ls1: Seq<Seq<u8>>, ls2: Seq<Seq<u8>>)
    ensures
        all_lines_ok(ls1 + ls2) == (all_lines_ok(ls1) && all_lines_ok(ls2)),
{
    if all_lines_ok(ls1) && all_lines_ok(ls2) {
        assert forall|i: int| 0 <= i < (ls1 + ls2).len() implies crate::chunk::line_ok(#[trigger] (ls1 + ls2)[i]) by {
            if i >= ls1.len() {
                assert((ls1 + ls2)[i] == ls2[i - ls1.len()]);
            }
        }
    }
    if all_lines_ok(ls1 + ls2) {
        assert forall|i: int| 0 <= i < ls1.len() implies crate::chunk::line_ok(#[trigger] ls1[i]) by {
            assert((ls1 + ls2)[i] == ls1[i]);
        }
        assert forall|i: int| 0 <= i < ls2.len() implies crate::chunk::line_ok(#[trigger] ls2[i]) by {
            assert((ls1 + ls2)[i + ls1.len()] == ls2[i]);
        }
    }
}

pub open spec fn partly_merged(ls1: Seq<Seq<u8>>, ls2: Seq<Seq<u8>>, merged: Set<Seq<u8>>, k: Seq<u8>) -> Seq<int> {
    if merged.contains(k) { values_of(ls1, k) + values_of(ls2, k) } else { values_of(ls1, k) }
}

/// Merges the table `part`, which describes the lines `ls2`, into `global`, which
/// describes the lines `ls1`: afterwards `global` describes `ls1 + ls2`.
pub fn merge_into(global: &mut KeyTable, part: &KeyTable, Ghost(ls1): Ghost<Seq<Seq<u8>>>, Ghost(ls2): Ghost<Seq<Seq<u8>>>)
    requires
        describes(old(global)@, ls1),
        describes(part@, ls2),
        ls1.len() + ls2.len() <= u64::MAX,
    ensures
        describes(final(global)@, ls1 + ls2),
{
    let keys = table_keys(part);
    let ghost mut merged: Set<Seq<u8>> = Set::empty();
    let mut j: usize = 0;
    while j < keys.len()
        invariant
            0 <= j <= keys.len(),
            describes(part@, ls2),
            ls1.len() + ls2.len() <= u64::MAX,
            forall|i: int| 0 <= i < keys.len() ==> part@.contains_key(#[trigger] keys@[i]@),
            forall|i: int, i2: int| 0 <= i < i2 < keys.len() ==> keys@[i]@ != keys@[i2]@,
            forall|k: Seq<u8>| merged.contains(k) <==> exists|i: int| 0 <= i < j && #[trigger] keys@[i]@ == k,
            forall|k: Seq<u8>| #[trigger] global@.contains_key(k) <==> partly_merged(ls1, ls2, merged, k).len() > 0,
            forall|k: Seq<u8>| #[trigger] global@.contains_key(k) ==> global@[k]@ == summary_of(partly_merged(ls1, ls2, merged, k)) && global@[k].wf(),
        decreases keys.len() - j,
    {
        let key = keys[j].as_slice();
        let ghost k = key@;
        assert(k == keys@[j as int]@);
        assert(!merged.contains(k)) by {
            if merged.contains(k) {
                let i = choose|i: int| 0 <= i < j && #[trigger] keys@[i]@ == k;
                assert(keys@[i]@ != keys@[j as int]@);
            }
        }
        assert(part@.contains_key(k));
        assert(part@[k]@ == summary_of(values_of(ls2, k)) && part@[k].wf());
        let p = match table_get(part, key) {
            Some(p) => p,
            None => Aggregate::new(),
        };
        let ghost v1 = values_of(ls1, k);
        let ghost v2 = values_of(ls2, k);
        proof {
            lemma_values_len(ls1, k);
            lemma_values_len(ls2, k);
            summary_is_exact(v1);
            summary_is_exact(v2);
            summary_of_concat(v1, v2);
        }
        assert(global@.contains_key(k) ==> global@[k]@ == summary_of(v1) && global@[k].wf());
        assert(!global@.contains_key(k) ==> v1.len() == 0);
        let mut g = match table_get(global, key) {
            Some(g) => g,
            None => Aggregate::new(),
        };
        g.merge(&p);
        table_insert(global, key, g);
        proof {
            let old_merged = merged;
            merged = merged.insert(k);
            assert forall|k2: Seq<u8>| merged.contains(k2) <==> exists|i: int| 0 <= i < j + 1 && #[trigger] keys@[i]@ == k2 by {
                if merged.contains(k2) && k2 != k {
                    assert(old_merged.contains(k2));
                    let i = choose|i: int| 0 <= i < j && #[trigger] keys@[i]@ == k2;
                    assert(0 <= i < j + 1 && keys@[i]@ == k2);
                }
                if exists|i: int| 0 <= i < j + 1 && #[trigger] keys@[i]@ == k2 {
                    let i = choose|i: int| 0 <= i < j + 1 && #[trigger] keys@[i]@ == k2;
                    if i < j {
                        assert(old_merged.contains(k2));
                    }
                }
            }
            assert forall|k2: Seq<u8>| k2 != k implies partly_merged(ls1, ls2, merged, k2) == partly_merged(ls1, ls2, old_merged, k2) by {}
            assert(partly_merged(ls1, ls2, merged, k) == v1 + v2);
            assert(global@[k]@ == combine(summary_of(v1), summary_of(v2)));
        }
        j = j + 1;
    }
    proof {
        assert forall|k: Seq<u8>| #[trigger] global@.contains_key(k) <==> values_of(ls1 + ls2, k).len() > 0 by {
            lemma_values_concat(ls1, ls2, k);
            if part@.contains_key(k) {
                let i = choose|i: int| 0 <= i < keys.len() && #[trigger] keys@[i]@ == k;
                assert(merged.contains(k));
            }
        }
        assert forall|k: Seq<u8>| #[trigger] global@.contains_key(k) implies global@[k]@ == summary_of(values_of(ls1 + ls2, k)) && global@[k].wf() by {
            lemma_values_concat(ls1, ls2, k);
            if part@.contains_key(k) {
                let i = choose|i: int| 0 <= i < keys.len() && #[trigger] keys@[i]@ == k;
                assert(merged.contains(k));
            } else {
                assert(values_of(ls1, k) + values_of(ls2, k) =~= values_of(ls1, k));
            }
        }
    }
}

proof fn lemma_chunk_lines_concat(buf: Seq<u8>, a: Seq<PartitionRange>, b: Seq<PartitionRange>)
    ensures
        chunk_lines(buf, a + b) == chunk_lines(buf, a) + chunk_lines(buf, b),
    decreases b.len(),
{
    if b.len() == 0 {
        assert(a + b =~= a);
        assert(chunk_lines(buf, a) + chunk_lines(buf, b) =~= chunk_lines(buf, a));
    } else {
        lemma_chunk_lines_concat(buf, a, b.drop_last());
        assert((a + b).drop_last() =~= a + b.drop_last());
        assert((a + b).last() == b.last());
        assert(chunk_lines(buf, a) + chunk_lines(buf, b) =~= chunk_lines(buf, a) + chunk_lines(buf, b.drop_last())
            + lines(chunk(buf, b.last())));
    }
}

/// The lines of the whole buffer, which the ranges of a tiling hold between them.
proof fn lemma_tiling_lines(buf: Seq<u8>, rs: Seq<PartitionRange>)
    requires
        tiles(buf, rs),
    ensures
        all_lines_ok(chunk_lines(buf, rs)) == all_lines_ok(lines(buf)),
        forall|k: Seq<u8>| #[trigger] values_of(chunk_lines(buf, rs), k) == values_of(lines(buf), k),
{
    if buf.len() > 0 {
        tiling_keeps_lines(buf, rs);
    } else {
        assert(rs.len() == 0);
        assert(chunk_lines(buf, rs) == Seq::<Seq<u8>>::empty());
        let ls = lines(buf);
        assert(ls == seq![Seq::<u8>::empty()]);
        assert(crate::value::first_index(ls[0], crate::chunk::SEPARATOR) == 0);
        assert(all_lines_ok(ls));
        assert forall|k: Seq<u8>| #[trigger] values_of(chunk_lines(buf, rs), k) == values_of(lines(buf), k) by {
            assert(ls.drop_last() =~= Seq::<Seq<u8>>::empty());
        }
    }
}

/// Parses every range of a tiling of `buf` in parallel and folds the partial
/// tables, in range order, into one table of the whole buffer.
pub fn run(buf: &[u8], ranges: &Vec<PartitionRange>) -> (r: Result<KeyTable, ParseError>)
    requires
        tiles(buf@, ranges@),
        buf.len() < usize::MAX,
    ensures
        r.is_ok() == all_lines_ok(lines(buf@)),
        r matches Ok(t) ==> describes(t@, lines(buf@)),
{
    let parts = parse_ranges(buf, ranges);
    let mut global = table_new();
    let ghost rs = ranges@;
    proof {
        lemma_tiling_lines(buf@, rs);
        assert(rs.subrange(0, 0) =~= Seq::<PartitionRange>::empty());
        assert forall|k: Seq<u8>| #[trigger] global@.contains_key(k) <==> values_of(Seq::<Seq<u8>>::empty(), k).len() > 0 by {}
    }
    let mut j: usize = 0;
    while j < parts.len()
        invariant
            0 <= j <= parts.len() == ranges.len(),
            rs == ranges@,
            tiles(buf@, rs),
            buf.len() < usize::MAX,
            forall|i: int| 0 <= i < ranges.len() ==> chunk_result(buf@, rs[i].start as int, rs[i].end as int, #[trigger] parts@[i]),
            describes(global@, chunk_lines(buf@, rs.subrange(0, j as int))),
            all_lines_ok(chunk_lines(buf@, rs.subrange(0, j as int))),
        decreases parts.len() - j,
    {
        let ghost before = chunk_lines(buf@, rs.subrange(0, j as int));
        let ghost here = lines(chunk(buf@, rs[j as int]));
        proof {
            assert(rs.subrange(0, j + 1).drop_last() =~= rs.subrange(0, j as int));
            assert(chunk_lines(buf@, rs.subrange(0, j + 1)) == before + here);
            lemma_all_ok_concat(before, here);
            assert(rs.subrange(0, j + 1) + rs.subrange(j + 1, rs.len() as int) =~= rs);
            lemma_chunk_lines_concat(buf@, rs.subrange(0, j + 1), rs.subrange(j + 1, rs.len() as int));
            lemma_all_ok_concat(before + here, chunk_lines(buf@, rs.subrange(j + 1, rs.len() as int)));
        }
        match &parts[j] {
            Ok(t) => {
                proof {
                    lemma_tiles_prefix(buf@, rs, j + 1);
                    lemma_lines_len(buf@.subrange(0, rs[j as int].end as int));
                }
                merge_into(&mut global, t, Ghost(before), Ghost(here));
            },
            Err(_) => {
                proof {
                    assert(chunk_result(buf@, rs[j as int].start as int, rs[j as int].end as int, parts@[j as int]));
                    assert(!all_lines_ok(here));
                    lemma_tiling_lines(buf@, rs);
                }
                return Err(ParseError::InvalidValue);
            },
        }
        j = j + 1;
    }
    proof {
        assert(rs.subrange(0, rs.len() as int) =~= rs);
        assert forall|k: Seq<u8>| #[trigger] global@.contains_key(k) <==> values_of(lines(buf@), k).len() > 0 by {
            assert(values_of(chunk_lines(buf@, rs), k) == values_of(lines(buf@), k));
        }
        assert forall|k: Seq<u8>| #[trigger] global@.contains_key(k) implies global@[k]@ == summary_of(values_of(lines(buf@), k)) && global@[k].wf() by {
            assert(values_of(chunk_lines(buf@, rs), k) == values_of(lines(buf@), k));
        }
    }
    Ok(global)
}

/// Aggregates the whole buffer over at most `parts` partitions.
pub fn aggregate(buf: &[u8], parts: usize) -> (r: Result<KeyTable, ParseError>)
    requires
        parts >= 1,
        buf.len() < usize::MAX,
    ensures
        r.is_ok() == all_lines_ok(lines(buf@)),
        r matches Ok(t) ==> describes(t@, lines(buf@)),
{
    let ranges = plan(buf, parts);
    run(buf, &ranges)
}

/// Any two tilings of a buffer hold the same lines in the same order, so every key
/// gets the same values and the same verdict on their validity, whatever the
/// number of partitions.
pub proof fn partitioning_is_irrelevant(buf: Seq<u8>, rs1: Seq<PartitionRange>, rs2: Seq<PartitionRange>)
    requires
        tiles(buf, rs1),
        tiles(buf, rs2),
    ensures
        chunk_lines(buf, rs1) == chunk_lines(buf, rs2),
        all_lines_ok(chunk_lines(buf, rs1)) == all_lines_ok(lines(buf)),
        forall|k: Seq<u8>| #[trigger] values_of(chunk_lines(buf, rs1), k) == values_of(lines(buf), k),
{
    lemma_tiling_lines(buf, rs1);
    if buf.len() > 0 {
        tiling_keeps_lines(buf, rs1);
        tiling_keeps_lines(buf, rs2);
    }
}

} // verus!
