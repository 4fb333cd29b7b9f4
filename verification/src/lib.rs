//! Finds every combination of five five-letter words whose twenty-five
//! letters are pairwise distinct.
//!
//! Words are encoded as letter-set bitmasks, exact anagrams share one search
//! entry, and a depth-first pruning search enumerates the valid combinations,
//! which are then expanded back into concrete word rows.

pub mod expand;
pub mod groups;
pub mod laws;
pub mod mask;
pub mod search;

use vstd::prelude::*;
use vstd::string::StringExecFns;

use crate::expand::compile_results;
use crate::expand::expand_rows;
use crate::groups::group_words;
use crate::groups::grouped;
use crate::groups::lemma_grouped_len;
use crate::groups::lemma_grouped_masks_nonzero;
use crate::groups::lemma_grouped_wf;
use crate::groups::Groups;
use crate::mask::all_lower;
use crate::search::combos;
use crate::search::lemma_band;
use crate::search::lemma_search_is_level;
use crate::search::lemma_search_rows_shape;
use crate::search::level_rows;
use crate::search::search_rows;
use crate::search::StepSolver;
use vstd::arithmetic::div_mod::lemma_div_is_ordered;
use vstd::arithmetic::div_mod::lemma_div_multiples_vanish;
use vstd::arithmetic::mul::lemma_mul_inequality;

verus! {

broadcast use vstd::arithmetic::mul::lemma_mul_is_commutative;

/// The rows of a run of combinations, each expanded into its word rows, in
/// order.
pub open spec fn expand_all(cs: Seq<Seq<u32>>, ms: Seq<u32>, gs: Seq<Seq<Seq<char>>>) -> Seq<
    Seq<Seq<char>>,
>
    decreases cs.len(),
{
    if cs.len() == 0 {
        Seq::empty()
    } else {
        expand_all(cs.drop_last(), ms, gs) + expand_rows(cs.last(), ms, gs)
    }
}

/// What `solve` returns: group the dictionary by letter-set, search every
/// five-mask combination in canonical order, and expand each combination
/// into its word rows.
pub open spec fn solve_rows(ws: Seq<Seq<char>>) -> Seq<Seq<Seq<char>>> {
    let (ms, gs) = grouped(ws);
    expand_all(combos(ms), ms, gs)
}

/// Finds every row of five words from the dictionary whose twenty-five
/// letters are pairwise distinct. Words of the wrong length or with a
/// repeated letter are silently dropped; exact anagrams multiply the rows of
/// their combination.
pub fn solve<'a>(words: Vec<&'a str>) -> (r: Vec<Vec<&'a str>>)
    requires
        forall|i: int| 0 <= i < words@.len() ==> all_lower(#[trigger] words@[i]@),
    ensures
        r.deep_view() == solve_rows(words.deep_view()),
{
    let ghost ws = words.deep_view();
    proof {
        assert forall|k: int| 0 <= k < ws.len() implies all_lower(#[trigger] ws[k]) by {
            assert(ws[k] == words@[k]@);
        }
    }
    let groups = group_words(&words);
    let ghost ms = groups.masks@;
    let ghost gs = groups.words.deep_view();
    let n = groups.masks.len();
    let solver = StepSolver { previous_letters: 0, requested_len: 5, first_step_end_idx: n };
    let mut found: Vec<Vec<u32>> = Vec::new();
    solver.next_step(&groups.masks, &mut found);
    proof {
        assert(found.deep_view() =~~= combos(ms));
        lemma_grouped_wf(ws);
        lemma_search_rows_shape(ms, 0u32, 5nat, ms.len() as int);
        assert forall|t: int, k: int|
            0 <= t < combos(ms).len() && 0 <= k < combos(ms)[t].len() implies ms.contains(
            #[trigger] combos(ms)[t][k],
        ) by {
            let row = combos(ms)[t];
            assert(row == search_rows(ms, 0u32, 5nat, ms.len() as int)[t]);
            assert(ms.contains(row[k]));
        }
    }
    proof {
        assert forall|t: int, k: int|
            0 <= t < found@.len() && 0 <= k < found@[t]@.len() implies ms.contains(
            #[trigger] found@[t]@[k],
        ) by {
            assert(found@[t]@[k] == combos(ms)[t][k]);
        }
    }
    expand_found(&found, &groups)
}

/// Expands every found mask combination in order and concatenates the rows.
fn expand_found<'a>(found: &Vec<Vec<u32>>, groups: &Groups<'a>) -> (r: Vec<Vec<&'a str>>)
    requires
        groups.masks@.no_duplicates(),
        groups.masks@.len() == groups.words@.len(),
        forall|t: int, k: int|
            0 <= t < found@.len() && 0 <= k < found@[t]@.len() ==> groups.masks@.contains(
                #[trigger] found@[t]@[k],
            ),
    ensures
        r.deep_view() == expand_all(found.deep_view(), groups.masks@, groups.words.deep_view()),
{
    let ghost ms = groups.masks@;
    let ghost gs = groups.words.deep_view();
    let mut results: Vec<Vec<&'a str>> = Vec::new();
    let mut i: usize = 0;
    while i < found.len()
        invariant
            ms == groups.masks@,
            gs == groups.words.deep_view(),
            ms.no_duplicates(),
            ms.len() == gs.len() == groups.words@.len(),
            forall|t: int, k: int|
                0 <= t < found@.len() && 0 <= k < found@[t]@.len() ==> ms.contains(
                    #[trigger] found@[t]@[k],
                ),
            0 <= i <= found@.len(),
            results.deep_view() == expand_all(found.deep_view().take(i as int), ms, gs),
        decreases found@.len() - i,
    {
        let combo: &Vec<u32> = &found[i];
        proof {
            assert(combo@ == found@[i as int]@);
            assert(combo@ == found.deep_view()[i as int]);
        }
        let mut expanded = compile_results(combo, &groups);
        let ghost res_pre = results.deep_view();
        let ghost exp = expanded.deep_view();
        results.append(&mut expanded);
        proof {
            assert(results.deep_view() =~~= res_pre + exp);
            assert(found.deep_view().take(i + 1).drop_last() =~= found.deep_view().take(i as int));
            assert(found.deep_view().take(i + 1).last() == combo@);
            assert(results.deep_view() =~~= expand_all(found.deep_view().take(i + 1), ms, gs));
        }
        i = i + 1;
    }
    proof {
        assert(found.deep_view().take(found@.len() as int) =~= found.deep_view());
    }
    results
}

/// Concatenating two runs of combinations expands to the two expansions,
/// concatenated.
proof fn lemma_expand_all_add(a: Seq<Seq<u32>>, b: Seq<Seq<u32>>, ms: Seq<u32>, gs: Seq<
    Seq<Seq<char>>,
>)
    ensures
        expand_all(a + b, ms, gs) == expand_all(a, ms, gs) + expand_all(b, ms, gs),
    decreases b.len(),
{
    if b.len() == 0 {
        assert(a + b =~= a);
        assert(expand_all(a, ms, gs) + expand_all(b, ms, gs) =~= expand_all(a, ms, gs));
    } else {
        lemma_expand_all_add(a, b.drop_last(), ms, gs);
        assert((a + b).drop_last() =~= a + b.drop_last());
        assert((a + b).last() == b.last());
        assert(expand_all(a + b, ms, gs) =~= expand_all(a, ms, gs) + expand_all(b, ms, gs));
    }
}

/// One parallel worker's share: it sees the suffix of the candidate list
/// from `lo` on, limits its first pick to the band `lo .. hi`, and expands
/// what it finds.
pub fn solve_band<'a>(groups: &Groups<'a>, lo: usize, hi: usize) -> (r: Vec<Vec<&'a str>>)
    requires
        lo <= hi,
        hi <= groups.masks@.len(),
        groups.masks@.no_duplicates(),
        groups.masks@.len() == groups.words@.len(),
    ensures
        r.deep_view() == expand_all(
            search_rows(groups.masks@.skip(lo as int), 0u32, 5nat, hi as int - lo as int),
            groups.masks@,
            groups.words.deep_view(),
        ),
{
    let ghost ms = groups.masks@;
    let ghost band = search_rows(ms.skip(lo as int), 0u32, 5nat, hi as int - lo as int);
    let mut suffix: Vec<u32> = Vec::new();
    let mut k: usize = lo;
    while k < groups.masks.len()
        invariant
            ms == groups.masks@,
            lo <= k <= ms.len(),
            suffix@ == ms.subrange(lo as int, k as int),
        decreases ms.len() - k,
    {
        proof {
            assert(ms.subrange(lo as int, k + 1) =~= ms.subrange(lo as int, k as int).push(
                ms[k as int],
            ));
        }
        suffix.push(groups.masks[k]);
        k = k + 1;
    }
    proof {
        assert(ms.subrange(lo as int, ms.len() as int) =~= ms.skip(lo as int));
    }
    let solver = StepSolver { previous_letters: 0, requested_len: 5, first_step_end_idx: hi - lo };
    let mut found: Vec<Vec<u32>> = Vec::new();
    solver.next_step(&suffix, &mut found);
    proof {
        assert(found.deep_view() =~~= band);
        lemma_search_rows_shape(ms.skip(lo as int), 0u32, 5nat, hi as int - lo as int);
        assert forall|t: int, j: int|
            0 <= t < found@.len() && 0 <= j < found@[t]@.len() implies ms.contains(
            #[trigger] found@[t]@[j],
        ) by {
            assert(found@[t]@[j] == band[t][j]);
            assert(ms.skip(lo as int).contains(band[t][j]));
            let p = choose|p: int|
                0 <= p < ms.skip(lo as int).len() && #[trigger] ms.skip(lo as int)[p] == band[t][j];
            assert(ms[lo + p] == band[t][j]);
        }
    }
    expand_found(&found, groups)
}

/// The bounds of one worker's first-pick band: worker `i` of `units` owns
/// the picks from `n * i / units` up to `n * (i + 1) / units`, and the last
/// worker's band closes at `n`, so the bands tile `0 .. n` without overlap.
pub fn band_bounds(n: usize, i: usize, units: usize) -> (r: (usize, usize))
    requires
        1 <= units,
        i < units,
        n * units <= usize::MAX,
    ensures
        ({
            let (lo, hi) = r;
            &&& lo as int == (n as int) * (i as int) / (units as int)
            &&& lo <= hi <= n
            &&& (i == 0 ==> lo == 0)
            &&& (i == units - 1 ==> hi == n)
            &&& (i < units - 1 ==> hi as int == (n as int) * (i as int + 1) / (units as int))
        }),
{
    proof {
        lemma_mul_inequality(i as int, units as int, n as int);
        lemma_mul_inequality(i as int + 1, units as int, n as int);
        lemma_mul_inequality(i as int, i as int + 1, n as int);
        lemma_div_multiples_vanish(n as int, units as int);
        lemma_div_is_ordered((n as int) * (i as int), (n as int) * (i as int + 1), units as int);
        lemma_div_is_ordered(
            (n as int) * (i as int + 1),
            (n as int) * (units as int),
            units as int,
        );
        if i == 0 {
            assert((n as int) * 0int == 0int && (units as int) * 0int == 0int)
                by (nonlinear_arith);
            lemma_div_multiples_vanish(0int, units as int);
        }
    }
    let lo = n * i / units;
    let hi = if i == units - 1 {
        n
    } else {
        n * (i + 1) / units
    };
    (lo, hi)
}

/// The parallel dispatcher's plan, run band after band: the candidate list
/// is split into `units` contiguous first-pick bands, each band's worker
/// searches and expands its own share, and the shares are concatenated in
/// band order. The result is exactly what `solve` returns: no row is lost,
/// duplicated, or reordered, whatever the number of units.
pub fn solve_with_units<'a>(words: Vec<&'a str>, units: usize) -> (r: Vec<Vec<&'a str>>)
    requires
        1 <= units,
        words@.len() * units <= usize::MAX,
        forall|i: int| 0 <= i < words@.len() ==> all_lower(#[trigger] words@[i]@),
    ensures
        r.deep_view() == solve_rows(words.deep_view()),
{
    let ghost ws = words.deep_view();
    proof {
        assert forall|k: int| 0 <= k < ws.len() implies all_lower(#[trigger] ws[k]) by {
            assert(ws[k] == words@[k]@);
        }
    }
    let groups = group_words(&words);
    let ghost ms = groups.masks@;
    let ghost gs = groups.words.deep_view();
    proof {
        lemma_grouped_wf(ws);
        lemma_grouped_len(ws);
        lemma_grouped_masks_nonzero(ws);
    }
    let n = groups.masks.len();
    let mut results: Vec<Vec<&'a str>> = Vec::new();
    let mut lo: usize = 0;
    let mut i: usize = 0;
    while i < units
        invariant
            ms == groups.masks@,
            gs == groups.words.deep_view(),
            ms.no_duplicates(),
            ms.len() == gs.len() == groups.words@.len(),
            forall|x: u32| ms.contains(x) ==> x != 0,
            n == ms.len(),
            n <= words@.len(),
            words@.len() * units <= usize::MAX,
            1 <= units,
            0 <= i <= units,
            lo <= n,
            1 <= i < units ==> lo as int == (n as int) * (i as int) / (units as int),
            i == 0 ==> lo == 0,
            i == units ==> lo == n,
            results.deep_view() == expand_all(level_rows(ms, 0u32, 5nat, lo as int), ms, gs),
        decreases units - i,
    {
        proof {
            lemma_mul_inequality(n as int, words@.len() as int, units as int);
        }
        let bounds = band_bounds(n, i, units);
        let hi = bounds.1;
        proof {
            assert(bounds.0 == lo);
        }
        let mut band = solve_band(&groups, lo, hi);
        let ghost res_pre = results.deep_view();
        let ghost band_rows = band.deep_view();
        results.append(&mut band);
        proof {
            lemma_band(ms, 0u32, 5nat, lo as int, hi as int);
            lemma_expand_all_add(
                level_rows(ms, 0u32, 5nat, lo as int),
                search_rows(ms.skip(lo as int), 0u32, 5nat, hi as int - lo as int),
                ms,
                gs,
            );
            assert(results.deep_view() =~~= res_pre + band_rows);
            assert(results.deep_view() =~~= expand_all(
                level_rows(ms, 0u32, 5nat, hi as int),
                ms,
                gs,
            ));
        }
        lo = hi;
        i = i + 1;
    }
    proof {
        lemma_search_is_level(ms, 0u32, 5nat);
        assert(results.deep_view() == expand_all(combos(ms), ms, gs));
    }
    results
}

/// The comma-and-space separated body of one output line.
pub open spec fn line_body(row: Seq<Seq<char>>) -> Seq<char>
    decreases row.len(),
{
    if row.len() == 0 {
        Seq::empty()
    } else if row.len() == 1 {
        row[0]
    } else {
        line_body(row.drop_last()) + seq![',', ' '] + row.last()
    }
}

/// The delimited text of all rows: one line per row, the row's five words
/// separated by a comma and a space, each line closed by a newline.
pub open spec fn csv_text(rows: Seq<Seq<Seq<char>>>) -> Seq<char>
    decreases rows.len(),
{
    if rows.len() == 0 {
        Seq::empty()
    } else {
        csv_text(rows.drop_last()) + line_body(rows.last()) + seq!['\n']
    }
}

/// Renders the result rows as comma-and-space delimited text, one
/// newline-terminated line per row, in row order.
pub fn write_results_csv(results: &Vec<Vec<&str>>) -> (out: String)
    requires
        forall|i: int| 0 <= i < results@.len() ==> (#[trigger] results@[i])@.len() == 5,
    ensures
        out@ == csv_text(results.deep_view()),
{
    let ghost rs = results.deep_view();
    let mut out = String::new();
    let mut i: usize = 0;
    while i < results.len()
        invariant
            rs == results.deep_view(),
            rs.len() == results@.len(),
            forall|t: int| 0 <= t < results@.len() ==> (#[trigger] results@[t])@.len() == 5,
            0 <= i <= results@.len(),
            out@ == csv_text(rs.take(i as int)),
        decreases results@.len() - i,
    {
        let row: &Vec<&str> = &results[i];
        let ghost rowv = rs[i as int];
        proof {
            assert(rowv =~= row.deep_view());
        }
        let ghost line_start = out@;
        let mut j: usize = 0;
        while j < row.len()
            invariant
                rowv == row.deep_view(),
                row@.len() == rowv.len(),
                0 <= j <= row@.len(),
                out@ == line_start + line_body(rowv.take(j as int)),
            decreases row@.len() - j,
        {
            if j != 0 {
                out.append(", ");
            }
            out.append(row[j]);
            proof {
                reveal_strlit(", ");
                assert(", "@ =~= seq![',', ' ']);
                assert(row@[j as int]@ == rowv[j as int]);
                assert(rowv.take(j + 1).drop_last() =~= rowv.take(j as int));
                assert(rowv.take(j + 1).last() == rowv[j as int]);
                if j == 0 {
                    assert(out@ =~= line_start + line_body(rowv.take(1)));
                } else {
                    assert(out@ =~= line_start + line_body(rowv.take(j + 1)));
                }
            }
            j = j + 1;
        }
        out.append("\n");
        proof {
            reveal_strlit("\n");
            assert("\n"@ =~= seq!['\n']);
            assert(rowv.take(rowv.len() as int) =~= rowv);
            assert(rs.take(i + 1).drop_last() =~= rs.take(i as int));
            assert(rs.take(i + 1).last() == rowv);
            assert(out@ =~= csv_text(rs.take(i + 1)));
        }
        i = i + 1;
    }
    proof {
        assert(rs.take(rs.len() as int) =~= rs);
    }
    out
}

} // verus!
