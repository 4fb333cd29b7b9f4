//! The library's laws: what holds of every result that `solve` returns.

use vstd::prelude::*;

use crate::expand::expand_rows;
use crate::expand::lemma_expand_from_shape;
use crate::groups::grouped;
use crate::groups::lemma_grouped_masks_nonzero;
use crate::groups::lemma_grouped_wf;
use crate::mask::all_lower;
use crate::mask::lemma_disjoint_masks_disjoint_letters;
use crate::mask::lemma_mask_bits;
use crate::mask::mask_of;
use crate::search::combos;
use crate::search::lemma_search_rows_disjoint;
use crate::search::lemma_search_rows_distinct;
use crate::search::lemma_search_rows_shape;
use crate::search::search_rows;
use crate::expand_all;
use crate::solve_rows;

verus! {

/// The letters of one result row, word after word.
pub open spec fn row_letters(row: Seq<Seq<char>>) -> Seq<char>
    recommends
        row.len() == 5,
{
    row[0] + row[1] + row[2] + row[3] + row[4]
}

proof fn lemma_concat_contains(a: Seq<char>, b: Seq<char>, x: char)
    ensures
        (a + b).contains(x) <==> a.contains(x) || b.contains(x),
{
    if (a + b).contains(x) {
        let i = choose|i: int| 0 <= i < (a + b).len() && (a + b)[i] == x;
        if i < a.len() {
            assert(a[i] == x);
        } else {
            assert(b[i - a.len()] == x);
        }
    }
    if a.contains(x) {
        let i = choose|i: int| 0 <= i < a.len() && a[i] == x;
        assert((a + b)[i] == x);
    }
    if b.contains(x) {
        let i = choose|i: int| 0 <= i < b.len() && b[i] == x;
        assert((a + b)[a.len() + i] == x);
    }
}

proof fn lemma_concat_no_dup(a: Seq<char>, b: Seq<char>)
    requires
        a.no_duplicates(),
        b.no_duplicates(),
        forall|c: char| !(a.contains(c) && b.contains(c)),
    ensures
        (a + b).no_duplicates(),
{
    assert forall|i: int, j: int| 0 <= i < j < (a + b).len() implies (a + b)[i] != (a + b)[j] by {
        if j < a.len() {
        } else if i >= a.len() {
        } else {
            if a[i] == b[j - a.len()] {
                assert(a.contains(a[i]));
                assert(b.contains(a[i]));
            }
        }
    }
}

/// A row of the concatenated expansion comes from one of the combinations.
spec fn expanded_from(
    cs: Seq<Seq<u32>>,
    ms: Seq<u32>,
    gs: Seq<Seq<Seq<char>>>,
    row: Seq<Seq<char>>,
) -> bool {
    exists|u: int| 0 <= u < cs.len() && expand_rows(#[trigger] cs[u], ms, gs).contains(row)
}

proof fn lemma_expand_all_membership(cs: Seq<Seq<u32>>, ms: Seq<u32>, gs: Seq<Seq<Seq<char>>>)
    ensures
        forall|t: int|
            0 <= t < expand_all(cs, ms, gs).len() ==> expanded_from(
                cs,
                ms,
                gs,
                #[trigger] expand_all(cs, ms, gs)[t],
            ),
    decreases cs.len(),
{
    if cs.len() > 0 {
        let d = cs.drop_last();
        lemma_expand_all_membership(d, ms, gs);
        let head = expand_all(d, ms, gs);
        let tail = expand_rows(cs.last(), ms, gs);
        assert forall|t: int| 0 <= t < expand_all(cs, ms, gs).len() implies expanded_from(
            cs,
            ms,
            gs,
            #[trigger] expand_all(cs, ms, gs)[t],
        ) by {
            let row = expand_all(cs, ms, gs)[t];
            if t < head.len() {
                assert(row == head[t]);
                assert(expanded_from(d, ms, gs, row));
                let u = choose|u: int|
                    0 <= u < d.len() && expand_rows(#[trigger] d[u], ms, gs).contains(row);
                assert(cs[u] == d[u]);
                assert(expand_rows(cs[u], ms, gs).contains(row));
            } else {
                assert(row == tail[t - head.len()]);
                assert(tail.contains(row));
                assert(cs[cs.len() - 1] == cs.last());
                assert(expand_rows(cs[cs.len() - 1], ms, gs).contains(row));
            }
        }
    }
}

/// Every returned row holds exactly five words of five letters each, and its
/// twenty-five letters are pairwise distinct: no letter repeats within a
/// word or across the row.
pub proof fn lemma_solve_rows_wf(ws: Seq<Seq<char>>)
    requires
        forall|i: int| 0 <= i < ws.len() ==> all_lower(#[trigger] ws[i]),
    ensures
        forall|t: int|
            0 <= t < solve_rows(ws).len() ==> {
                let row = #[trigger] solve_rows(ws)[t];
                &&& row.len() == 5
                &&& (forall|j: int| 0 <= j < 5 ==> (#[trigger] row[j]).len() == 5)
                &&& row_letters(row).no_duplicates()
                &&& row_letters(row).to_set().len() == 25
            },
{
    let ms = grouped(ws).0;
    let gs = grouped(ws).1;
    lemma_grouped_wf(ws);
    lemma_search_rows_shape(ms, 0u32, 5nat, ms.len() as int);
    assert forall|x: u32| ms.contains(x) implies x & 0u32 == 0 by {
        let y = x;
        assert(y & 0u32 == 0) by (bit_vector);
    }
    lemma_search_rows_disjoint(ms, 0u32, 5nat, ms.len() as int);
    lemma_expand_all_membership(combos(ms), ms, gs);
    assert forall|t: int| 0 <= t < solve_rows(ws).len() implies {
        let row = #[trigger] solve_rows(ws)[t];
        &&& row.len() == 5
        &&& (forall|j: int| 0 <= j < 5 ==> (#[trigger] row[j]).len() == 5)
        &&& row_letters(row).no_duplicates()
        &&& row_letters(row).to_set().len() == 25
    } by {
        let row = solve_rows(ws)[t];
        assert(expand_all(combos(ms), ms, gs)[t] == row);
        assert(expanded_from(combos(ms), ms, gs, row));
        let u = choose|u: int|
            0 <= u < combos(ms).len() && expand_rows(#[trigger] combos(ms)[u], ms, gs).contains(
                row,
            );
        let c = combos(ms)[u];
        assert(c == search_rows(ms, 0u32, 5nat, ms.len() as int)[u]);
        assert(c.len() == 5);
        assert(forall|k: int| 0 <= k < 5 ==> ms.contains(#[trigger] c[k]));
        assert(forall|k1: int, k2: int| 0 <= k1 < k2 < 5 ==> c[k1] & c[k2] == 0);
        lemma_expand_from_shape(c, ms, gs, 0);
        let v = choose|v: int|
            0 <= v < expand_rows(c, ms, gs).len() && expand_rows(c, ms, gs)[v] == row;
        assert(row == crate::expand::expand_from(c, ms, gs, 0)[v]);
        assert(row.len() == 5);
        // The search hands the combination deepest-chosen mask first, and
        // expansion appends on the way out, so the word at row position `k`
        // belongs to the mask at the mirrored position `4 - k`.
        assert forall|k: int| 0 <= k < 5 implies (#[trigger] row[k]).len() == 5 && mask_of(row[k])
            == Some(c[4 - k]) && all_lower(row[k]) && row[k].no_duplicates() by {
            let j = 4 - k;
            let gi = ms.index_of(c[j]);
            assert(0 <= gi < ms.len() && ms[gi] == c[j]);
            assert(gs[gi].contains(row[c.len() - 1 - j]));
            assert(gs[gi].contains(row[k]));
            let p = choose|p: int| 0 <= p < gs[gi].len() && gs[gi][p] == row[k];
            assert(mask_of(gs[gi][p]) == Some(ms[gi]));
            assert(ws.contains(row[k]));
            let q = choose|q: int| 0 <= q < ws.len() && ws[q] == row[k];
            assert(all_lower(ws[q]));
            lemma_mask_bits(row[k]);
        }
        assert forall|j1: int, j2: int|
            0 <= j1 < j2 < 5 implies (forall|ch: char|
            !((#[trigger] row[j1]).contains(ch) && (#[trigger] row[j2]).contains(ch))) by {
            assert(c[4 - j2] & c[4 - j1] == 0);
            lemma_disjoint_masks_disjoint_letters(row[j2], row[j1]);
        }
        let w0 = row[0];
        let w1 = row[1];
        let w2 = row[2];
        let w3 = row[3];
        let w4 = row[4];
        let s1 = w0 + w1;
        let s2 = s1 + w2;
        let s3 = s2 + w3;
        let s4 = s3 + w4;
        lemma_concat_no_dup(w0, w1);
        assert forall|ch: char| !(s1.contains(ch) && w2.contains(ch)) by {
            lemma_concat_contains(w0, w1, ch);
        }
        lemma_concat_no_dup(s1, w2);
        assert forall|ch: char| !(s2.contains(ch) && w3.contains(ch)) by {
            lemma_concat_contains(w0, w1, ch);
            lemma_concat_contains(s1, w2, ch);
        }
        lemma_concat_no_dup(s2, w3);
        assert forall|ch: char| !(s3.contains(ch) && w4.contains(ch)) by {
            lemma_concat_contains(w0, w1, ch);
            lemma_concat_contains(s1, w2, ch);
            lemma_concat_contains(s2, w3, ch);
        }
        lemma_concat_no_dup(s3, w4);
        assert(row_letters(row) == s4);
        assert(row_letters(row).len() == 25);
        row_letters(row).unique_seq_to_set();
    }
}

/// No combination of letter-sets is found twice as a set: the canonical
/// strictly increasing pick order visits every set of five masks at most
/// once, however many word rows each combination later expands to.
pub proof fn lemma_combos_distinct_sets(ws: Seq<Seq<char>>)
    requires
        forall|i: int| 0 <= i < ws.len() ==> all_lower(#[trigger] ws[i]),
    ensures
        ({
            let ms = grouped(ws).0;
            forall|t1: int, t2: int|
                0 <= t1 < t2 < combos(ms).len() ==> (#[trigger] combos(ms)[t1]).to_set() != (
                #[trigger] combos(ms)[t2]).to_set()
        }),
{
    let ms = grouped(ws).0;
    lemma_grouped_wf(ws);
    lemma_grouped_masks_nonzero(ws);
    lemma_search_rows_distinct(ms, 0u32, 5nat, ms.len() as int);
    assert forall|t1: int, t2: int|
        0 <= t1 < t2 < combos(ms).len() implies (#[trigger] combos(ms)[t1]).to_set() != (
    #[trigger] combos(ms)[t2]).to_set() by {
        let s = search_rows(ms, 0u32, 5nat, ms.len() as int);
        assert(s[t1].to_set() != s[t2].to_set());
        assert(combos(ms)[t1] == s[t1] && combos(ms)[t2] == s[t2]);
    }
}

proof fn lemma_grouped_remove_dropped(ws: Seq<Seq<char>>, i: int)
    requires
        0 <= i < ws.len(),
        ws[i].len() != 5 || mask_of(ws[i]) is None,
    ensures
        grouped(ws.remove(i)) == grouped(ws),
    decreases ws.len(),
{
    if i == ws.len() - 1 {
        assert(ws.remove(i) =~= ws.drop_last());
    } else {
        assert(ws.remove(i).drop_last() =~= ws.drop_last().remove(i));
        assert(ws.remove(i).last() == ws.last());
        assert(ws.drop_last()[i] == ws[i]);
        lemma_grouped_remove_dropped(ws.drop_last(), i);
    }
}

/// Removing a word that the encoder drops anyway — one of the wrong length,
/// or one with a repeated letter — leaves the returned rows exactly as they
/// were.
pub proof fn lemma_solve_rows_remove_dropped(ws: Seq<Seq<char>>, i: int)
    requires
        0 <= i < ws.len(),
        ws[i].len() != 5 || mask_of(ws[i]) is None,
    ensures
        solve_rows(ws.remove(i)) == solve_rows(ws),
{
    lemma_grouped_remove_dropped(ws, i);
}

/// When every two five-letter words of the dictionary that encode share at
/// least one letter, no five letter-disjoint words exist and `solve` returns
/// nothing.
pub proof fn lemma_solve_empty_when_sharing(ws: Seq<Seq<char>>)
    requires
        forall|i: int| 0 <= i < ws.len() ==> all_lower(#[trigger] ws[i]),
        forall|i: int, j: int|
            0 <= i < ws.len() && 0 <= j < ws.len() && ws[i] != ws[j] && (#[trigger] ws[i]).len()
                == 5 && (#[trigger] ws[j]).len() == 5 && mask_of(ws[i]) is Some && mask_of(ws[j]) is Some
                ==> exists|c: char| ws[i].contains(c) && ws[j].contains(c),
    ensures
        solve_rows(ws).len() == 0,
{
    let ms = grouped(ws).0;
    let gs = grouped(ws).1;
    lemma_grouped_wf(ws);
    lemma_grouped_masks_nonzero(ws);
    if combos(ms).len() > 0 {
        lemma_search_rows_shape(ms, 0u32, 5nat, ms.len() as int);
        assert forall|x: u32| ms.contains(x) implies x & 0u32 == 0 by {
            let y = x;
            assert(y & 0u32 == 0) by (bit_vector);
        }
        lemma_search_rows_disjoint(ms, 0u32, 5nat, ms.len() as int);
        let row = search_rows(ms, 0u32, 5nat, ms.len() as int)[0];
        assert(row.len() == 5);
        assert(ms.contains(row[0]) && ms.contains(row[1]));
        assert(row[0] & row[1] == 0);
        let m0 = row[0];
        let m1 = row[1];
        if m0 == m1 {
            assert(m0 & m0 == 0 ==> m0 == 0) by (bit_vector);
            assert(false);
        }
        let i0 = choose|i: int| 0 <= i < ms.len() && ms[i] == row[0];
        let i1 = choose|i: int| 0 <= i < ms.len() && ms[i] == row[1];
        let w0 = gs[i0][0];
        let w1 = gs[i1][0];
        assert(mask_of(w0) == Some(row[0]) && w0.len() == 5 && ws.contains(w0));
        assert(mask_of(w1) == Some(row[1]) && w1.len() == 5 && ws.contains(w1));
        assert(w0 != w1);
        let q0 = choose|q: int| 0 <= q < ws.len() && ws[q] == w0;
        let q1 = choose|q: int| 0 <= q < ws.len() && ws[q] == w1;
        assert(all_lower(ws[q0]) && all_lower(ws[q1]));
        let c = choose|c: char| ws[q0].contains(c) && ws[q1].contains(c);
        lemma_disjoint_masks_disjoint_letters(w0, w1);
        assert(false);
    }
}

} // verus!
