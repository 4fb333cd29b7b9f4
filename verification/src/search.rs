//! The combination search engine: a depth-first pruning search that
//! enumerates every way of picking letter-disjoint masks at strictly
//! increasing positions of the candidate list.

use vstd::prelude::*;

verus! {

broadcast use vstd::seq_lib::group_seq_lib_default;

/// A candidate fits when it shares no letter with the letters chosen so far.
pub open spec fn fits(new_mask: u32) -> spec_fn(u32) -> bool {
    |x: u32| x & new_mask == 0
}

/// Appends one mask to a row: combinations are assembled on unwind, so each
/// level's mask comes after all deeper ones.
pub open spec fn push_mask(w: u32) -> spec_fn(Seq<u32>) -> Seq<u32> {
    |row: Seq<u32>| row.push(w)
}

/// Every combination of `req` masks the search finds: the next pick comes
/// from `words[0 .. first_end]`, later picks from strictly later positions,
/// each disjoint from all letters picked before it. Rows appear in search
/// order, and each row lists its masks deepest-chosen first, since each
/// level appends its own mask only when the deeper levels have returned.
pub open spec fn search_rows(words: Seq<u32>, prev: u32, req: nat, first_end: int) -> Seq<Seq<u32>>
    decreases req, first_end, 1int,
{
    if req == 0 {
        seq![Seq::<u32>::empty()]
    } else if words.len() < req {
        Seq::empty()
    } else {
        level_rows(words, prev, req, first_end)
    }
}

/// The rows contributed by the picks at positions `0 .. end` of the current
/// candidate list, concatenated in position order.
pub open spec fn level_rows(words: Seq<u32>, prev: u32, req: nat, end: int) -> Seq<Seq<u32>>
    decreases req, end, 0int,
{
    if end <= 0 || req == 0 {
        Seq::empty()
    } else {
        level_rows(words, prev, req, end - 1) + step_rows(words, prev, req, end - 1)
    }
}

/// The rows found below the single pick `words[idx]`: the next candidate
/// list is the suffix starting at `idx`, thinned to the masks disjoint from
/// every letter now taken, and `words[idx]` itself is appended to every row
/// the deeper levels return.
pub open spec fn step_rows(words: Seq<u32>, prev: u32, req: nat, idx: int) -> Seq<Seq<u32>>
    decreases req, idx, 2int,
{
    if req == 0 {
        Seq::empty()
    } else {
        let w = words[idx];
        let nm = prev | w;
        let filtered = words.skip(idx).filter(fits(nm));
        search_rows(filtered, nm, (req - 1) as nat, filtered.len() as int).map_values(push_mask(w))
    }
}

/// Every complete five-mask combination drawn from `words`, in search order.
pub open spec fn combos(words: Seq<u32>) -> Seq<Seq<u32>> {
    search_rows(words, 0u32, 5, words.len() as int)
}

/// The shape of every found row: exactly `req` masks, each of them an
/// element of the candidate list.
pub proof fn lemma_search_rows_shape(words: Seq<u32>, prev: u32, req: nat, first_end: int)
    requires
        first_end <= words.len(),
    ensures
        forall|t: int|
            0 <= t < search_rows(words, prev, req, first_end).len() ==> {
                let row = #[trigger] search_rows(words, prev, req, first_end)[t];
                &&& row.len() == req
                &&& forall|k: int| 0 <= k < row.len() ==> words.contains(#[trigger] row[k])
            },
    decreases req, first_end, 1int,
{
    if req == 0 {
    } else if words.len() < req {
    } else {
        lemma_level_rows_shape(words, prev, req, first_end);
        assert forall|t: int| 0 <= t < search_rows(words, prev, req, first_end).len() implies {
            let row = #[trigger] search_rows(words, prev, req, first_end)[t];
            &&& row.len() == req
            &&& forall|k: int| 0 <= k < row.len() ==> words.contains(#[trigger] row[k])
        } by {
            assert(search_rows(words, prev, req, first_end)[t] == level_rows(
                words,
                prev,
                req,
                first_end,
            )[t]);
        }
    }
}

proof fn lemma_level_rows_shape(words: Seq<u32>, prev: u32, req: nat, end: int)
    requires
        end <= words.len(),
    ensures
        forall|t: int|
            0 <= t < level_rows(words, prev, req, end).len() ==> {
                let row = #[trigger] level_rows(words, prev, req, end)[t];
                &&& row.len() == req
                &&& forall|k: int| 0 <= k < row.len() ==> words.contains(#[trigger] row[k])
            },
    decreases req, end, 0int,
{
    if end > 0 && req > 0 {
        lemma_level_rows_shape(words, prev, req, end - 1);
        lemma_step_rows_shape(words, prev, req, end - 1);
        let head = level_rows(words, prev, req, end - 1);
        let tail = step_rows(words, prev, req, end - 1);
        assert forall|t: int| 0 <= t < level_rows(words, prev, req, end).len() implies {
            let row = #[trigger] level_rows(words, prev, req, end)[t];
            &&& row.len() == req
            &&& forall|k: int| 0 <= k < row.len() ==> words.contains(#[trigger] row[k])
        } by {
            if t < head.len() {
                assert(level_rows(words, prev, req, end)[t] == head[t]);
            } else {
                assert(level_rows(words, prev, req, end)[t] == tail[t - head.len()]);
            }
        }
    }
}

proof fn lemma_step_rows_shape(words: Seq<u32>, prev: u32, req: nat, idx: int)
    requires
        0 <= idx < words.len(),
    ensures
        forall|t: int|
            0 <= t < step_rows(words, prev, req, idx).len() ==> {
                let row = #[trigger] step_rows(words, prev, req, idx)[t];
                &&& row.len() == req
                &&& forall|k: int| 0 <= k < row.len() ==> words.contains(#[trigger] row[k])
            },
    decreases req, idx, 2int,
{
    if req > 0 {
        let w = words[idx];
        let nm = prev | w;
        let filtered = words.skip(idx).filter(fits(nm));
        let inner = search_rows(filtered, nm, (req - 1) as nat, filtered.len() as int);
        lemma_search_rows_shape(filtered, nm, (req - 1) as nat, filtered.len() as int);
        assert forall|x: u32| filtered.contains(x) implies words.contains(x) by {
            words.skip(idx).lemma_filter_contains_rev(fits(nm), x);
            let k = choose|k: int|
                0 <= k < words.skip(idx).len() && #[trigger] words.skip(idx)[k] == x;
            assert(words[idx + k] == x);
        }
        assert(words.contains(w));
        assert forall|t: int| 0 <= t < step_rows(words, prev, req, idx).len() implies {
            let row = #[trigger] step_rows(words, prev, req, idx)[t];
            &&& row.len() == req
            &&& forall|k: int| 0 <= k < row.len() ==> words.contains(#[trigger] row[k])
        } by {
            let row = step_rows(words, prev, req, idx)[t];
            assert(row == inner[t].push(w));
            assert forall|k: int| 0 <= k < row.len() implies words.contains(#[trigger] row[k]) by {
                if k < row.len() - 1 {
                    assert(row[k] == inner[t][k]);
                    assert(filtered.contains(inner[t][k]));
                } else {
                    assert(row[k] == w);
                }
            }
        }
    }
}

/// The masks of a found row are disjoint from `prev` and pairwise disjoint,
/// provided every candidate is disjoint from `prev`.
pub proof fn lemma_search_rows_disjoint(words: Seq<u32>, prev: u32, req: nat, first_end: int)
    requires
        first_end <= words.len(),
        forall|x: u32| words.contains(x) ==> x & prev == 0,
    ensures
        forall|t: int|
            0 <= t < search_rows(words, prev, req, first_end).len() ==> {
                let row = #[trigger] search_rows(words, prev, req, first_end)[t];
                &&& forall|k: int| 0 <= k < row.len() ==> (#[trigger] row[k]) & prev == 0
                &&& forall|k1: int, k2: int| 0 <= k1 < k2 < row.len() ==> row[k1] & row[k2] == 0
            },
    decreases req, first_end, 1int,
{
    if req == 0 {
    } else if words.len() < req {
    } else {
        lemma_level_rows_disjoint(words, prev, req, first_end);
        assert forall|t: int| 0 <= t < search_rows(words, prev, req, first_end).len() implies {
            let row = #[trigger] search_rows(words, prev, req, first_end)[t];
            &&& forall|k: int| 0 <= k < row.len() ==> (#[trigger] row[k]) & prev == 0
            &&& forall|k1: int, k2: int| 0 <= k1 < k2 < row.len() ==> row[k1] & row[k2] == 0
        } by {
            assert(search_rows(words, prev, req, first_end)[t] == level_rows(
                words,
                prev,
                req,
                first_end,
            )[t]);
        }
    }
}

proof fn lemma_level_rows_disjoint(words: Seq<u32>, prev: u32, req: nat, end: int)
    requires
        end <= words.len(),
        forall|x: u32| words.contains(x) ==> x & prev == 0,
    ensures
        forall|t: int|
            0 <= t < level_rows(words, prev, req, end).len() ==> {
                let row = #[trigger] level_rows(words, prev, req, end)[t];
                &&& forall|k: int| 0 <= k < row.len() ==> (#[trigger] row[k]) & prev == 0
                &&& forall|k1: int, k2: int| 0 <= k1 < k2 < row.len() ==> row[k1] & row[k2] == 0
            },
    decreases req, end, 0int,
{
    if end > 0 && req > 0 {
        lemma_level_rows_disjoint(words, prev, req, end - 1);
        lemma_step_rows_disjoint(words, prev, req, end - 1);
        let head = level_rows(words, prev, req, end - 1);
        let tail = step_rows(words, prev, req, end - 1);
        assert forall|t: int| 0 <= t < level_rows(words, prev, req, end).len() implies {
            let row = #[trigger] level_rows(words, prev, req, end)[t];
            &&& forall|k: int| 0 <= k < row.len() ==> (#[trigger] row[k]) & prev == 0
            &&& forall|k1: int, k2: int| 0 <= k1 < k2 < row.len() ==> row[k1] & row[k2] == 0
        } by {
            if t < head.len() {
                assert(level_rows(words, prev, req, end)[t] == head[t]);
            } else {
                assert(level_rows(words, prev, req, end)[t] == tail[t - head.len()]);
            }
        }
    }
}

proof fn lemma_step_rows_disjoint(words: Seq<u32>, prev: u32, req: nat, idx: int)
    requires
        0 <= idx < words.len(),
        forall|x: u32| words.contains(x) ==> x & prev == 0,
    ensures
        forall|t: int|
            0 <= t < step_rows(words, prev, req, idx).len() ==> {
                let row = #[trigger] step_rows(words, prev, req, idx)[t];
                &&& forall|k: int| 0 <= k < row.len() ==> (#[trigger] row[k]) & prev == 0
                &&& forall|k1: int, k2: int| 0 <= k1 < k2 < row.len() ==> row[k1] & row[k2] == 0
            },
    decreases req, idx, 2int,
{
    if req > 0 {
        let w = words[idx];
        let nm = prev | w;
        let filtered = words.skip(idx).filter(fits(nm));
        let inner = search_rows(filtered, nm, (req - 1) as nat, filtered.len() as int);
        assert(words.contains(w));
        assert forall|x: u32| filtered.contains(x) implies x & nm == 0 by {
            let k = choose|k: int| 0 <= k < filtered.len() && filtered[k] == x;
            words.skip(idx).lemma_filter_pred(fits(nm), k);
        }
        lemma_search_rows_shape(filtered, nm, (req - 1) as nat, filtered.len() as int);
        lemma_search_rows_disjoint(filtered, nm, (req - 1) as nat, filtered.len() as int);
        assert forall|t: int| 0 <= t < step_rows(words, prev, req, idx).len() implies {
            let row = #[trigger] step_rows(words, prev, req, idx)[t];
            &&& forall|k: int| 0 <= k < row.len() ==> (#[trigger] row[k]) & prev == 0
            &&& forall|k1: int, k2: int| 0 <= k1 < k2 < row.len() ==> row[k1] & row[k2] == 0
        } by {
            let row = step_rows(words, prev, req, idx)[t];
            assert(row == inner[t].push(w));
            assert forall|k: int| 0 <= k < row.len() implies (#[trigger] row[k]) & prev == 0 by {
                if k == row.len() - 1 {
                    assert(row[k] == w && w & prev == 0);
                } else {
                    let x = row[k];
                    assert(x == inner[t][k]);
                    assert(filtered.contains(x));
                    assert(x & nm == 0);
                    assert(x & (prev | w) == 0 ==> x & prev == 0 && x & w == 0) by (bit_vector);
                }
            }
            assert forall|k1: int, k2: int|
                0 <= k1 < k2 < row.len() implies row[k1] & row[k2] == 0 by {
                if k2 == row.len() - 1 {
                    let x = row[k1];
                    assert(x == inner[t][k1]);
                    assert(filtered.contains(x));
                    assert(x & nm == 0);
                    assert(x & (prev | w) == 0 ==> x & w == 0) by (bit_vector);
                } else {
                    assert(row[k1] == inner[t][k1] && row[k2] == inner[t][k2]);
                }
            }
        }
    }
}

proof fn lemma_skip_no_dup(s: Seq<u32>, n: int)
    requires
        0 <= n <= s.len(),
        s.no_duplicates(),
    ensures
        s.skip(n).no_duplicates(),
{
    assert forall|i: int, j: int| 0 <= i < j < s.skip(n).len() implies s.skip(n)[i] != s.skip(
        n,
    )[j] by {
        assert(s.skip(n)[i] == s[n + i]);
        assert(s.skip(n)[j] == s[n + j]);
    }
}

proof fn lemma_filter_no_dup(s: Seq<u32>, p: spec_fn(u32) -> bool)
    requires
        s.no_duplicates(),
    ensures
        s.filter(p).no_duplicates(),
    decreases s.len(),
{
    reveal(Seq::filter);
    if s.len() > 0 {
        let d = s.drop_last();
        let last = s.last();
        assert(d.no_duplicates());
        lemma_filter_no_dup(d, p);
        let f = d.filter(p);
        if p(last) {
            assert(s.filter(p) == f.push(last));
            if f.contains(last) {
                d.lemma_filter_contains_rev(p, last);
                let i = choose|i: int| 0 <= i < d.len() && d[i] == last;
                assert(s[i] == s[s.len() - 1]);
                assert(false);
            }
            assert forall|i: int, j: int|
                0 <= i < j < f.push(last).len() implies f.push(last)[i] != f.push(last)[j] by {
                if j < f.len() {
                } else {
                    if f[i] == last {
                        assert(f.contains(last));
                    }
                }
            }
        }
    }
}

/// A row whose picks all lie in the suffix of the candidate list starting at
/// `i`, the pick made at `i` itself — `words[i]` — being the row's last.
spec fn from_band(words: Seq<u32>, row: Seq<u32>, i: int) -> bool {
    &&& row.len() > 0
    &&& row.last() == words[i]
    &&& forall|k: int| 0 <= k < row.len() ==> words.skip(i).contains(#[trigger] row[k])
}

/// A row whose first pick was made at one of the positions `0 .. end` of the
/// candidate list.
spec fn banded(words: Seq<u32>, row: Seq<u32>, end: int) -> bool {
    exists|i: int| 0 <= i < end && from_band(words, row, i)
}

/// No two found rows hold the same set of masks: the strictly increasing
/// pick order visits every set at most once.
pub proof fn lemma_search_rows_distinct(words: Seq<u32>, prev: u32, req: nat, first_end: int)
    requires
        first_end <= words.len(),
        words.no_duplicates(),
        forall|x: u32| words.contains(x) ==> x != 0,
    ensures
        forall|t1: int, t2: int|
            0 <= t1 < t2 < search_rows(words, prev, req, first_end).len()
                ==> #[trigger] search_rows(words, prev, req, first_end)[t1].to_set()
                != #[trigger] search_rows(words, prev, req, first_end)[t2].to_set(),
    decreases req, first_end, 1int,
{
    if req == 0 {
    } else if words.len() < req {
    } else {
        lemma_level_rows_distinct(words, prev, req, first_end);
        assert forall|t1: int, t2: int|
            0 <= t1 < t2 < search_rows(words, prev, req, first_end).len() implies
            #[trigger] search_rows(words, prev, req, first_end)[t1].to_set()
            != #[trigger] search_rows(words, prev, req, first_end)[t2].to_set() by {
            let lv = level_rows(words, prev, req, first_end);
            assert(search_rows(words, prev, req, first_end)[t1] == lv[t1]);
            assert(search_rows(words, prev, req, first_end)[t2] == lv[t2]);
        }
    }
}

proof fn lemma_level_rows_distinct(words: Seq<u32>, prev: u32, req: nat, end: int)
    requires
        end <= words.len(),
        words.no_duplicates(),
        forall|x: u32| words.contains(x) ==> x != 0,
    ensures
        forall|t: int|
            0 <= t < level_rows(words, prev, req, end).len() ==> banded(
                words,
                #[trigger] level_rows(words, prev, req, end)[t],
                end,
            ),
        forall|t1: int, t2: int|
            0 <= t1 < t2 < level_rows(words, prev, req, end).len() ==> #[trigger] level_rows(
                words,
                prev,
                req,
                end,
            )[t1].to_set() != #[trigger] level_rows(words, prev, req, end)[t2].to_set(),
    decreases req, end, 0int,
{
    if end > 0 && req > 0 {
        lemma_level_rows_distinct(words, prev, req, end - 1);
        lemma_step_rows_distinct(words, prev, req, end - 1);
        let head = level_rows(words, prev, req, end - 1);
        let tail = step_rows(words, prev, req, end - 1);
        assert forall|t: int| 0 <= t < level_rows(words, prev, req, end).len() implies banded(
            words,
            #[trigger] level_rows(words, prev, req, end)[t],
            end,
        ) by {
            if t < head.len() {
                assert(level_rows(words, prev, req, end)[t] == head[t]);
                assert(banded(words, head[t], end - 1));
                let i = choose|i: int| 0 <= i < end - 1 && from_band(words, head[t], i);
                assert(from_band(words, level_rows(words, prev, req, end)[t], i));
            } else {
                assert(level_rows(words, prev, req, end)[t] == tail[t - head.len()]);
                assert(from_band(words, level_rows(words, prev, req, end)[t], end - 1));
            }
        }
        assert forall|t1: int, t2: int|
            0 <= t1 < t2 < level_rows(words, prev, req, end).len() implies #[trigger] level_rows(
            words,
            prev,
            req,
            end,
        )[t1].to_set() != #[trigger] level_rows(words, prev, req, end)[t2].to_set() by {
            if t2 < head.len() {
                assert(level_rows(words, prev, req, end)[t1] == head[t1]);
                assert(level_rows(words, prev, req, end)[t2] == head[t2]);
            } else if t1 >= head.len() {
                assert(level_rows(words, prev, req, end)[t1] == tail[t1 - head.len()]);
                assert(level_rows(words, prev, req, end)[t2] == tail[t2 - head.len()]);
            } else {
                let row1 = level_rows(words, prev, req, end)[t1];
                let row2 = level_rows(words, prev, req, end)[t2];
                assert(row1 == head[t1] && row2 == tail[t2 - head.len()]);
                assert(banded(words, head[t1], end - 1));
                let i1 = choose|i: int| 0 <= i < end - 1 && from_band(words, row1, i);
                assert(from_band(words, row2, end - 1));
                if row1.to_set() == row2.to_set() {
                    assert(row1[row1.len() - 1] == words[i1]);
                    assert(row1.contains(words[i1]));
                    assert(row1.to_set().contains(words[i1]));
                    assert(row2.to_set().contains(words[i1]));
                    assert(row2.contains(words[i1]));
                    let k = choose|k: int| 0 <= k < row2.len() && row2[k] == words[i1];
                    assert(words.skip(end - 1).contains(row2[k]));
                    let p = choose|p: int|
                        0 <= p < words.skip(end - 1).len() && #[trigger] words.skip(end - 1)[p]
                            == words[i1];
                    assert(words[end - 1 + p] == words[i1]);
                    assert(false);
                }
            }
        }
    }
}

proof fn lemma_step_rows_distinct(words: Seq<u32>, prev: u32, req: nat, idx: int)
    requires
        0 <= idx < words.len(),
        words.no_duplicates(),
        forall|x: u32| words.contains(x) ==> x != 0,
    ensures
        forall|t: int|
            0 <= t < step_rows(words, prev, req, idx).len() ==> from_band(
                words,
                #[trigger] step_rows(words, prev, req, idx)[t],
                idx,
            ),
        forall|t1: int, t2: int|
            0 <= t1 < t2 < step_rows(words, prev, req, idx).len() ==> #[trigger] step_rows(
                words,
                prev,
                req,
                idx,
            )[t1].to_set() != #[trigger] step_rows(words, prev, req, idx)[t2].to_set(),
    decreases req, idx, 2int,
{
    if req > 0 {
        let w = words[idx];
        let nm = prev | w;
        let filtered = words.skip(idx).filter(fits(nm));
        let inner = search_rows(filtered, nm, (req - 1) as nat, filtered.len() as int);
        assert(words.contains(w));
        assert(w != 0);
        assert forall|x: u32| filtered.contains(x) implies words.skip(idx).contains(x) && x & nm
            == 0 by {
            words.skip(idx).lemma_filter_contains_rev(fits(nm), x);
            let k = choose|k: int| 0 <= k < filtered.len() && filtered[k] == x;
            words.skip(idx).lemma_filter_pred(fits(nm), k);
        }
        lemma_skip_no_dup(words, idx);
        lemma_filter_no_dup(words.skip(idx), fits(nm));
        assert forall|x: u32| filtered.contains(x) implies x != 0 by {
            let k = choose|k: int|
                0 <= k < words.skip(idx).len() && #[trigger] words.skip(idx)[k] == x;
            assert(words[idx + k] == x);
            assert(words.contains(x));
        }
        lemma_search_rows_shape(filtered, nm, (req - 1) as nat, filtered.len() as int);
        lemma_search_rows_distinct(filtered, nm, (req - 1) as nat, filtered.len() as int);
        if filtered.contains(w) {
            assert(w & (prev | w) == 0 ==> w == 0) by (bit_vector);
            assert(false);
        }
        let sp = step_rows(words, prev, req, idx);
        assert forall|t: int| 0 <= t < sp.len() implies from_band(
            words,
            #[trigger] sp[t],
            idx,
        ) by {
            let row = sp[t];
            assert(row == inner[t].push(w));
            assert(row.last() == w);
            assert(words.skip(idx)[0] == w);
            assert forall|k: int| 0 <= k < row.len() implies words.skip(idx).contains(
                #[trigger] row[k],
            ) by {
                if k < row.len() - 1 {
                    assert(row[k] == inner[t][k]);
                    assert(filtered.contains(inner[t][k]));
                }
            }
        }
        assert forall|t1: int, t2: int| 0 <= t1 < t2 < sp.len() implies #[trigger] sp[t1].to_set()
            != #[trigger] sp[t2].to_set() by {
            let row1 = sp[t1];
            let row2 = sp[t2];
            let a = inner[t1];
            let b = inner[t2];
            assert(row1 == a.push(w) && row2 == b.push(w));
            assert(a.to_set() != b.to_set());
            a.lemma_push_to_set_commute(w);
            b.lemma_push_to_set_commute(w);
            assert(!a.to_set().contains(w)) by {
                if a.to_set().contains(w) {
                    let k = choose|k: int| 0 <= k < a.len() && a[k] == w;
                    assert(filtered.contains(a[k]));
                }
            }
            assert(!b.to_set().contains(w)) by {
                if b.to_set().contains(w) {
                    let k = choose|k: int| 0 <= k < b.len() && b[k] == w;
                    assert(filtered.contains(b[k]));
                }
            }
            if a.to_set().insert(w) == b.to_set().insert(w) {
                assert forall|y: u32| a.to_set().contains(y) implies b.to_set().contains(y) by {
                    assert(a.to_set().insert(w).contains(y));
                }
                assert forall|y: u32| b.to_set().contains(y) implies a.to_set().contains(y) by {
                    assert(b.to_set().insert(w).contains(y));
                }
                assert(a.to_set() =~= b.to_set());
                assert(false);
            }
        }
    }
}

/// One pick taken inside the suffix starting at `lo` finds the same rows as
/// the same pick taken in the full list: the candidates that remain are the
/// same either way.
proof fn lemma_step_rows_shift(words: Seq<u32>, prev: u32, req: nat, lo: int, j: int)
    requires
        0 <= lo,
        0 <= j,
        lo + j < words.len(),
    ensures
        step_rows(words.skip(lo), prev, req, j) == step_rows(words, prev, req, lo + j),
{
    if req > 0 {
        assert(words.skip(lo)[j] == words[lo + j]);
        assert(words.skip(lo).skip(j) =~= words.skip(lo + j));
    }
}

/// Splitting the first-pick range at `lo`: the rows of picks `0 .. hi` are
/// the rows of picks `0 .. lo` followed by the rows the suffix worker finds
/// for picks `lo .. hi`.
proof fn lemma_level_rows_split(words: Seq<u32>, prev: u32, req: nat, lo: int, hi: int)
    requires
        0 <= lo <= hi <= words.len(),
    ensures
        level_rows(words, prev, req, hi) == level_rows(words, prev, req, lo) + level_rows(
            words.skip(lo),
            prev,
            req,
            hi - lo,
        ),
    decreases hi - lo,
{
    if req == 0 || hi == lo {
        assert(level_rows(words, prev, req, hi) =~= level_rows(words, prev, req, lo) + level_rows(
            words.skip(lo),
            prev,
            req,
            hi - lo,
        ));
    } else {
        lemma_level_rows_split(words, prev, req, lo, hi - 1);
        lemma_step_rows_shift(words, prev, req, lo, hi - 1 - lo);
        assert(level_rows(words, prev, req, hi) =~= level_rows(words, prev, req, lo) + level_rows(
            words.skip(lo),
            prev,
            req,
            hi - lo,
        ));
    }
}

/// A pick too close to the end of the list leads nowhere: fewer candidates
/// remain than picks are needed.
proof fn lemma_step_rows_empty(words: Seq<u32>, prev: u32, req: nat, idx: int)
    requires
        0 <= idx < words.len(),
        req >= 1,
        words.len() - idx < req,
        forall|x: u32| words.contains(x) ==> x != 0,
    ensures
        step_rows(words, prev, req, idx) == Seq::<Seq<u32>>::empty(),
{
    let w = words[idx];
    let nm = prev | w;
    assert(words.contains(w));
    assert(w & (prev | w) == w) by (bit_vector);
    assert(!fits(nm)(w));
    assert(words.skip(idx) =~= seq![w] + words.skip(idx + 1));
    Seq::<u32>::filter_distributes_over_add(seq![w], words.skip(idx + 1), fits(nm));
    assert(seq![w].filter(fits(nm)) =~= Seq::<u32>::empty()) by {
        reveal(Seq::filter);
        assert(seq![w].drop_last() =~= Seq::<u32>::empty());
        assert(Seq::<u32>::empty().filter(fits(nm)) =~= Seq::<u32>::empty());
        assert(seq![w].last() == w);
        assert(seq![w].filter(fits(nm)) == seq![w].drop_last().filter(fits(nm)));
    }
    let filtered = words.skip(idx).filter(fits(nm));
    assert(filtered =~= words.skip(idx + 1).filter(fits(nm)));
    words.skip(idx + 1).lemma_filter_len(fits(nm));
    assert(filtered.len() <= words.len() - idx - 1);
    assert(filtered.len() < (req - 1) as nat);
    assert(step_rows(words, prev, req, idx) =~= Seq::<Seq<u32>>::empty());
}

/// When fewer candidates remain after `lo` than picks are needed, no pick at
/// or beyond `lo` finds anything.
proof fn lemma_level_rows_all_empty(words: Seq<u32>, prev: u32, req: nat, lo: int, e: int)
    requires
        0 <= lo <= words.len(),
        0 <= e <= words.len() - lo,
        req >= 1,
        words.len() - lo < req,
        forall|x: u32| words.contains(x) ==> x != 0,
    ensures
        level_rows(words.skip(lo), prev, req, e) == Seq::<Seq<u32>>::empty(),
    decreases e,
{
    if e > 0 {
        lemma_level_rows_all_empty(words, prev, req, lo, e - 1);
        lemma_step_rows_shift(words, prev, req, lo, e - 1);
        lemma_step_rows_empty(words, prev, req, lo + e - 1);
        assert(level_rows(words.skip(lo), prev, req, e) =~= Seq::<Seq<u32>>::empty());
    }
}

/// The band theorem: a worker that sees the suffix starting at `lo` and
/// limits its first pick to the band `lo .. hi` finds exactly the rows the
/// full search finds with its first pick in that band.
pub proof fn lemma_band(words: Seq<u32>, prev: u32, req: nat, lo: int, hi: int)
    requires
        0 <= lo <= hi <= words.len(),
        req >= 1,
        forall|x: u32| words.contains(x) ==> x != 0,
    ensures
        level_rows(words, prev, req, hi) == level_rows(words, prev, req, lo) + search_rows(
            words.skip(lo),
            prev,
            req,
            hi - lo,
        ),
{
    lemma_level_rows_split(words, prev, req, lo, hi);
    if words.len() - lo >= req {
        assert(search_rows(words.skip(lo), prev, req, hi - lo) == level_rows(
            words.skip(lo),
            prev,
            req,
            hi - lo,
        ));
    } else {
        lemma_level_rows_all_empty(words, prev, req, lo, hi - lo);
        assert(search_rows(words.skip(lo), prev, req, hi - lo) == Seq::<Seq<u32>>::empty());
        assert(level_rows(words, prev, req, lo) + Seq::<Seq<u32>>::empty() =~= level_rows(
            words,
            prev,
            req,
            lo,
        ));
    }
}

/// With at least one pick still requested, the search is its first-pick
/// sweep: the pruning guard rejects exactly what the sweep also rejects.
pub proof fn lemma_search_is_level(words: Seq<u32>, prev: u32, req: nat)
    requires
        req >= 1,
        forall|x: u32| words.contains(x) ==> x != 0,
    ensures
        search_rows(words, prev, req, words.len() as int) == level_rows(
            words,
            prev,
            req,
            words.len() as int,
        ),
{
    if words.len() < req {
        lemma_level_rows_all_empty(words, prev, req, 0, words.len() as int);
        assert(words.skip(0) =~= words);
    }
}

/// One level of the depth-first search: the letters already taken, how many
/// masks are still requested, and how far along the candidate list the next
/// pick may range.
pub struct StepSolver {
    pub previous_letters: u32,
    pub requested_len: usize,
    pub first_step_end_idx: usize,
}

impl StepSolver {
    /// Runs the search below this level: appends to `results` every
    /// combination found, in search order. Each combination is assembled on
    /// unwind — a level's mask joins the rows the deeper levels returned —
    /// so a finished row lists its masks deepest-chosen first.
    pub fn next_step(&self, words: &Vec<u32>, results: &mut Vec<Vec<u32>>)
        requires
            self.first_step_end_idx <= words@.len(),
        ensures
            final(results).deep_view() == old(results).deep_view() + search_rows(
                words@,
                self.previous_letters,
                self.requested_len as nat,
                self.first_step_end_idx as int,
            ),
        decreases self.requested_len,
    {
        let ghost req = self.requested_len as nat;
        let ghost prev = self.previous_letters;
        let ghost rows0 = results.deep_view();
        if self.requested_len == 0 {
            results.push(Vec::new());
            proof {
                assert(results.deep_view() =~~= rows0 + seq![Seq::<u32>::empty()]);
            }
            return ;
        }
        if words.len() < self.requested_len {
            proof {
                assert(results.deep_view() =~~= rows0 + Seq::<Seq<u32>>::empty());
            }
            return ;
        }
        let mut idx: usize = 0;
        while idx < self.first_step_end_idx
            invariant
                self.first_step_end_idx <= words@.len(),
                0 <= idx <= self.first_step_end_idx,
                1 <= req == self.requested_len,
                prev == self.previous_letters,
                req <= words@.len(),
                results.deep_view() == rows0 + level_rows(words@, prev, req, idx as int),
            decreases self.first_step_end_idx - idx,
        {
            let word = words[idx];
            let new_mask = self.previous_letters | word;
            let mut filtered: Vec<u32> = Vec::new();
            let mut j: usize = idx;
            while j < words.len()
                invariant
                    idx <= j <= words@.len(),
                    idx < words@.len(),
                    new_mask == prev | words@[idx as int],
                    filtered@ == words@.subrange(idx as int, j as int).filter(fits(new_mask)),
                decreases words@.len() - j,
            {
                proof {
                    let pre = words@.subrange(idx as int, j as int);
                    assert(words@.subrange(idx as int, j + 1) =~= pre.push(words@[j as int]));
                    pre.lemma_filter_push(words@[j as int], fits(new_mask));
                }
                if words[j] & new_mask == 0 {
                    filtered.push(words[j]);
                }
                j = j + 1;
            }
            proof {
                assert(words@.subrange(idx as int, words@.len() as int) =~= words@.skip(idx as int));
            }
            let flen = filtered.len();
            let sub = StepSolver {
                previous_letters: new_mask,
                requested_len: self.requested_len - 1,
                first_step_end_idx: flen,
            };
            let previous_results_len = results.len();
            let ghost rows_before = results.deep_view();
            sub.next_step(&filtered, results);
            let ghost inner = search_rows(
                filtered@,
                new_mask,
                (req - 1) as nat,
                filtered@.len() as int,
            );
            proof {
                assert(rows_before.len() == previous_results_len as int);
                assert(results.deep_view() == rows_before + inner);
                assert(results.deep_view().len() == results@.len());
                assert(results@.len() == previous_results_len + inner.len());
                assert(inner.take(0) =~= Seq::<Seq<u32>>::empty());
                assert(inner.skip(0) =~= inner);
                assert(results.deep_view() =~~= rows_before + inner.take(0).map_values(
                    push_mask(word),
                ) + inner.skip(0));
            }
            // Add the current mask to every row the deeper levels appended.
            let mut k: usize = previous_results_len;
            while k < results.len()
                invariant
                    previous_results_len <= k <= results@.len(),
                    results@.len() == previous_results_len + inner.len(),
                    previous_results_len == rows_before.len(),
                    results.deep_view() == rows_before + inner.take(
                        k - previous_results_len,
                    ).map_values(push_mask(word)) + inner.skip(k - previous_results_len),
                decreases results@.len() - k,
            {
                let ghost rows_mid = results.deep_view();
                let mut row = results.remove(k);
                row.push(word);
                results.insert(k, row);
                proof {
                    assert(rows_mid[k as int] == inner[k - previous_results_len]);
                    assert(results.deep_view() =~~= rows_mid.update(
                        k as int,
                        inner[k - previous_results_len].push(word),
                    ));
                    assert(inner.take(k + 1 - previous_results_len).drop_last() =~= inner.take(
                        k - previous_results_len,
                    ));
                    assert(results.deep_view() =~~= rows_before + inner.take(
                        k + 1 - previous_results_len,
                    ).map_values(push_mask(word)) + inner.skip(k + 1 - previous_results_len));
                }
                k = k + 1;
            }
            proof {
                assert(inner.take(inner.len() as int) =~= inner);
                assert(inner.skip(inner.len() as int) =~= Seq::<Seq<u32>>::empty());
                assert(results.deep_view() =~~= rows_before + inner.map_values(push_mask(word)));
                assert(filtered@ == words@.skip(idx as int).filter(fits(new_mask)));
                assert(step_rows(words@, prev, req, idx as int) == inner.map_values(
                    push_mask(word),
                ));
                assert(results.deep_view() =~~= rows0 + level_rows(words@, prev, req, idx + 1));
            }
            idx = idx + 1;
        }
    }
}

} // verus!
