//! Result expansion: one mask combination becomes the cross-product of its
//! anagram groups' words, since several words can share one letter-set.
//!
//! A combination arrives deepest-chosen mask first. Expansion recurses on
//! its first mask and appends that mask's word to every row of the expanded
//! remainder, so a finished row lists its words in the order the search
//! chose their letter-sets.

use vstd::prelude::*;

use crate::groups::Groups;

verus! {

/// Every row of `rest`, with the word `w` appended.
pub open spec fn suffix_all(w: Seq<char>, rest: Seq<Seq<Seq<char>>>) -> Seq<Seq<Seq<char>>> {
    rest.map_values(|row: Seq<Seq<char>>| row.push(w))
}

/// The cross-product step: every word of `group` appended to every row of
/// `rest`, group words outermost, both in their given order.
pub open spec fn cross(group: Seq<Seq<char>>, rest: Seq<Seq<Seq<char>>>) -> Seq<Seq<Seq<char>>>
    decreases group.len(),
{
    if group.len() <= 0 {
        Seq::empty()
    } else {
        cross(group.drop_last(), rest) + suffix_all(group.last(), rest)
    }
}

/// The rows expanded from the suffix of the combination starting at `pos`:
/// each word of the first mask's group, appended to every row of the
/// expanded remainder. An empty suffix expands to exactly one empty row, the
/// identity of the cross-product.
pub open spec fn expand_from(
    combo: Seq<u32>,
    ms: Seq<u32>,
    gs: Seq<Seq<Seq<char>>>,
    pos: int,
) -> Seq<Seq<Seq<char>>>
    decreases combo.len() - pos,
{
    if pos < 0 || pos >= combo.len() {
        seq![Seq::<Seq<char>>::empty()]
    } else {
        cross(gs[ms.index_of(combo[pos])], expand_from(combo, ms, gs, pos + 1))
    }
}

/// All rows of one combination: the full cross-product of its groups.
pub open spec fn expand_rows(combo: Seq<u32>, ms: Seq<u32>, gs: Seq<Seq<Seq<char>>>) -> Seq<
    Seq<Seq<char>>,
> {
    expand_from(combo, ms, gs, 0)
}

/// The cross-product has one row per pair of a group word and a rest row.
pub proof fn lemma_cross_len(group: Seq<Seq<char>>, rest: Seq<Seq<Seq<char>>>)
    ensures
        cross(group, rest).len() == group.len() * rest.len(),
    decreases group.len(),
{
    if group.len() > 0 {
        lemma_cross_len(group.drop_last(), rest);
        assert((group.len() - 1) * rest.len() + rest.len() == group.len() * rest.len())
            by (nonlinear_arith);
    }
}

/// How many rows a suffix of the combination expands to: the product of its
/// groups' sizes.
pub open spec fn expansion_count(combo: Seq<u32>, ms: Seq<u32>, gs: Seq<Seq<Seq<char>>>, pos: int) -> nat
    decreases combo.len() - pos,
{
    if pos < 0 || pos >= combo.len() {
        1
    } else {
        gs[ms.index_of(combo[pos])].len() * expansion_count(combo, ms, gs, pos + 1)
    }
}

proof fn lemma_expand_from_count(combo: Seq<u32>, ms: Seq<u32>, gs: Seq<Seq<Seq<char>>>, pos: int)
    ensures
        expand_from(combo, ms, gs, pos).len() == expansion_count(combo, ms, gs, pos),
    decreases combo.len() - pos,
{
    if 0 <= pos < combo.len() {
        lemma_expand_from_count(combo, ms, gs, pos + 1);
        lemma_cross_len(gs[ms.index_of(combo[pos])], expand_from(combo, ms, gs, pos + 1));
    }
}

/// One combination expands to exactly the product of its groups' sizes:
/// a combination whose masks all name one-word groups yields one row, and
/// each anagram group multiplies the rows by its size.
pub proof fn lemma_expand_rows_count(combo: Seq<u32>, ms: Seq<u32>, gs: Seq<Seq<Seq<char>>>)
    ensures
        expand_rows(combo, ms, gs).len() == expansion_count(combo, ms, gs, 0),
{
    lemma_expand_from_count(combo, ms, gs, 0);
}

/// Every cross-product row ends with a word of the group and starts as a
/// row of the rest.
pub proof fn lemma_cross_shape(group: Seq<Seq<char>>, rest: Seq<Seq<Seq<char>>>)
    ensures
        forall|t: int|
            0 <= t < cross(group, rest).len() ==> {
                let row = #[trigger] cross(group, rest)[t];
                &&& row.len() >= 1
                &&& group.contains(row.last())
                &&& rest.contains(row.drop_last())
            },
    decreases group.len(),
{
    if group.len() > 0 {
        let d = group.drop_last();
        let w = group.last();
        lemma_cross_shape(d, rest);
        assert forall|x: Seq<char>| d.contains(x) implies group.contains(x) by {
            let i = choose|i: int| 0 <= i < d.len() && d[i] == x;
            assert(group[i] == x);
        }
        assert(group[group.len() - 1] == w);
        assert forall|t: int| 0 <= t < cross(group, rest).len() implies {
            let row = #[trigger] cross(group, rest)[t];
            &&& row.len() >= 1
            &&& group.contains(row.last())
            &&& rest.contains(row.drop_last())
        } by {
            let c = cross(group, rest);
            let head = cross(d, rest);
            if t >= head.len() {
                let row = c[t];
                let k = t - head.len();
                assert(row == suffix_all(w, rest)[k]);
                assert(row == rest[k].push(w));
                assert(row.last() == w);
                assert(row.drop_last() =~= rest[k]);
            }
        }
    }
}

/// Every expanded row has one word per mask of the suffix, each drawn from
/// that mask's group; the word for the mask at `j` sits at the mirrored
/// position `combo.len() - 1 - j`, since words are appended on the way out.
pub proof fn lemma_expand_from_shape(combo: Seq<u32>, ms: Seq<u32>, gs: Seq<Seq<Seq<char>>>, pos: int)
    requires
        0 <= pos <= combo.len(),
        ms.len() == gs.len(),
        forall|t: int| pos <= t < combo.len() ==> ms.contains(#[trigger] combo[t]),
    ensures
        forall|t: int|
            0 <= t < expand_from(combo, ms, gs, pos).len() ==> {
                let row = #[trigger] expand_from(combo, ms, gs, pos)[t];
                &&& row.len() == combo.len() - pos
                &&& forall|j: int|
                    pos <= j < combo.len() ==> gs[ms.index_of(combo[j])].contains(
                        #[trigger] row[combo.len() - 1 - j],
                    )
            },
    decreases combo.len() - pos,
{
    if pos < combo.len() {
        lemma_expand_from_shape(combo, ms, gs, pos + 1);
        let gi = ms.index_of(combo[pos]);
        assert(0 <= gi < ms.len());
        let group = gs[gi];
        let rest = expand_from(combo, ms, gs, pos + 1);
        lemma_cross_shape(group, rest);
        assert forall|t: int| 0 <= t < expand_from(combo, ms, gs, pos).len() implies {
            let row = #[trigger] expand_from(combo, ms, gs, pos)[t];
            &&& row.len() == combo.len() - pos
            &&& forall|j: int|
                pos <= j < combo.len() ==> gs[ms.index_of(combo[j])].contains(
                    #[trigger] row[combo.len() - 1 - j],
                )
        } by {
            let row = expand_from(combo, ms, gs, pos)[t];
            assert(group.contains(row.last()) && rest.contains(row.drop_last()));
            let rt = row.drop_last();
            let k = choose|k: int| 0 <= k < rest.len() && rest[k] == rt;
            assert forall|j: int| pos <= j < combo.len() implies gs[ms.index_of(combo[j])].contains(
                #[trigger] row[combo.len() - 1 - j],
            ) by {
                if j > pos {
                    assert(rt[combo.len() - 1 - j] == row[combo.len() - 1 - j]);
                    assert(gs[ms.index_of(combo[j])].contains(rt[combo.len() - 1 - j]));
                } else {
                    assert(row[combo.len() - 1 - pos] == row.last());
                }
            }
        }
    }
}

/// Finds the group of `m`, which must be one of the keys.
fn find_group_index(masks: &Vec<u32>, m: u32) -> (gi: usize)
    requires
        masks@.contains(m),
    ensures
        gi < masks@.len() && masks@[gi as int] == m,
{
    let mut i: usize = 0;
    loop
        invariant
            masks@.contains(m),
            0 <= i <= masks@.len(),
            forall|k: int| 0 <= k < i ==> masks@[k] != m,
        decreases masks@.len() - i,
    {
        if i < masks.len() {
            if masks[i] == m {
                return i;
            }
            i = i + 1;
        } else {
            proof {
                let k = choose|k: int| 0 <= k < masks@.len() && masks@[k] == m;
                assert(false);
            }
        }
    }
}

/// Converts the masks returned from the solver back to concrete words: the
/// full cross-product over the anagram groups of the combination, each
/// group's word appended to the rows of the expanded remainder.
pub fn compile_results<'a>(combo: &Vec<u32>, groups: &Groups<'a>) -> (r: Vec<Vec<&'a str>>)
    requires
        groups.masks@.no_duplicates(),
        groups.masks@.len() == groups.words@.len(),
        forall|t: int| 0 <= t < combo@.len() ==> groups.masks@.contains(#[trigger] combo@[t]),
    ensures
        r.deep_view() == expand_rows(combo@, groups.masks@, groups.words.deep_view()),
{
    let ghost ms = groups.masks@;
    let ghost gs = groups.words.deep_view();
    let mut rows: Vec<Vec<&'a str>> = Vec::new();
    rows.push(Vec::new());
    proof {
        assert(rows.deep_view() =~~= expand_from(combo@, ms, gs, combo@.len() as int));
    }
    let mut pos: usize = combo.len();
    while pos > 0
        invariant
            ms == groups.masks@,
            gs == groups.words.deep_view(),
            ms.no_duplicates(),
            ms.len() == gs.len() == groups.words@.len(),
            forall|t: int| 0 <= t < combo@.len() ==> ms.contains(#[trigger] combo@[t]),
            0 <= pos <= combo@.len(),
            rows.deep_view() == expand_from(combo@, ms, gs, pos as int),
        decreases pos,
    {
        pos = pos - 1;
        let m = combo[pos];
        let gi = find_group_index(&groups.masks, m);
        proof {
            let si = ms.index_of(m);
            assert(0 <= si < ms.len() && ms[si] == m);
            assert(si == gi as int);
        }
        let group: &Vec<&'a str> = &groups.words[gi];
        let ghost gseq = gs[gi as int];
        proof {
            assert(gseq =~= group.deep_view());
        }
        let ghost rest = rows.deep_view();
        let mut new_rows: Vec<Vec<&'a str>> = Vec::new();
        let mut a: usize = 0;
        while a < group.len()
            invariant
                gseq == group.deep_view(),
                rest == rows.deep_view(),
                0 <= a <= group@.len(),
                gseq.len() == group@.len(),
                new_rows.deep_view() == cross(gseq.take(a as int), rest),
            decreases group@.len() - a,
        {
            let w = group[a];
            proof {
                assert(gseq[a as int] == group@[a as int]@);
            }
            let mut b: usize = 0;
            while b < rows.len()
                invariant
                    gseq == group.deep_view(),
                    rest == rows.deep_view(),
                    0 <= a < group@.len(),
                    gseq.len() == group@.len(),
                    w == group@[a as int],
                    0 <= b <= rows@.len(),
                    rest.len() == rows@.len(),
                    new_rows.deep_view() == cross(gseq.take(a as int), rest) + suffix_all(
                        gseq[a as int],
                        rest.take(b as int),
                    ),
                decreases rows@.len() - b,
            {
                let mut row: Vec<&'a str> = Vec::new();
                let src: &Vec<&'a str> = &rows[b];
                let mut c: usize = 0;
                while c < src.len()
                    invariant
                        0 <= c <= src@.len(),
                        row@ == src@.take(c as int),
                    decreases src@.len() - c,
                {
                    row.push(src[c]);
                    proof {
                        assert(row@ =~= src@.take(c + 1));
                    }
                    c = c + 1;
                }
                row.push(w);
                proof {
                    assert(src@.take(src@.len() as int) =~= src@);
                    assert(row@ == src@.push(w));
                    assert(src.deep_view() == rest[b as int]);
                    assert(row.deep_view() =~~= rest[b as int].push(gseq[a as int]));
                }
                let ghost nr_pre = new_rows.deep_view();
                new_rows.push(row);
                proof {
                    assert(new_rows.deep_view() =~~= nr_pre.push(
                        rest[b as int].push(gseq[a as int]),
                    ));
                    assert(rest.take(b + 1).drop_last() =~= rest.take(b as int));
                    assert(suffix_all(gseq[a as int], rest.take(b + 1)) =~= suffix_all(
                        gseq[a as int],
                        rest.take(b as int),
                    ).push(rest[b as int].push(gseq[a as int])));
                    assert(new_rows.deep_view() =~~= cross(gseq.take(a as int), rest) + suffix_all(
                        gseq[a as int],
                        rest.take(b + 1),
                    ));
                }
                b = b + 1;
            }
            proof {
                assert(rest.take(rest.len() as int) =~= rest);
                assert(gseq.take(a + 1).drop_last() =~= gseq.take(a as int));
                assert(gseq.take(a + 1).last() == gseq[a as int]);
                assert(new_rows.deep_view() =~~= cross(gseq.take(a + 1), rest));
            }
            a = a + 1;
        }
        proof {
            assert(gseq.take(gseq.len() as int) =~= gseq);
            assert(new_rows.deep_view() == cross(gseq, rest));
            assert(expand_from(combo@, ms, gs, pos as int) == cross(
                gs[ms.index_of(combo@[pos as int])],
                expand_from(combo@, ms, gs, pos + 1),
            ));
        }
        rows = new_rows;
    }
    rows
}

} // verus!
