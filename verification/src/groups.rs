//! Anagram grouping: dictionary words that share a letter-set mask share one
//! search entry.

use vstd::prelude::*;

use crate::mask::all_lower;
use crate::mask::get_mask;
use crate::mask::mask_of;

verus! {

/// The grouped dictionary: `masks[i]` is the letter-set shared by every word
/// of `words[i]`. Masks are distinct keys, in first-appearance order.
pub struct Groups<'a> {
    pub masks: Vec<u32>,
    pub words: Vec<Vec<&'a str>>,
}

/// One grouping step: a five-letter word with no repeated letter joins the
/// group of its mask; every other word is silently dropped.
pub open spec fn add_word(ms: Seq<u32>, gs: Seq<Seq<Seq<char>>>, w: Seq<char>) -> (
    Seq<u32>,
    Seq<Seq<Seq<char>>>,
) {
    if w.len() != 5 {
        (ms, gs)
    } else {
        match mask_of(w) {
            None => (ms, gs),
            Some(m) => if ms.contains(m) {
                let i = ms.index_of(m);
                (ms, gs.update(i, gs[i].push(w)))
            } else {
                (ms.push(m), gs.push(seq![w]))
            },
        }
    }
}

/// The grouping of a whole dictionary, words taken in order.
pub open spec fn grouped(ws: Seq<Seq<char>>) -> (Seq<u32>, Seq<Seq<Seq<char>>>)
    decreases ws.len(),
{
    if ws.len() == 0 {
        (Seq::empty(), Seq::empty())
    } else {
        let (ms, gs) = grouped(ws.drop_last());
        add_word(ms, gs, ws.last())
    }
}

/// What grouping guarantees: distinct mask keys, one non-empty group per
/// key, and every grouped word is a five-letter word of the dictionary whose
/// mask is its key.
pub proof fn lemma_grouped_wf(ws: Seq<Seq<char>>)
    ensures
        ({
            let (ms, gs) = grouped(ws);
            &&& ms.no_duplicates()
            &&& ms.len() == gs.len()
            &&& forall|i: int| 0 <= i < gs.len() ==> (#[trigger] gs[i]).len() >= 1
            &&& forall|i: int, j: int|
                0 <= i < gs.len() && 0 <= j < gs[i].len() ==> {
                    &&& mask_of(#[trigger] gs[i][j]) == Some(ms[i])
                    &&& gs[i][j].len() == 5
                    &&& ws.contains(gs[i][j])
                }
        }),
    decreases ws.len(),
{
    if ws.len() > 0 {
        let d = ws.drop_last();
        let w = ws.last();
        lemma_grouped_wf(d);
        let (ms, gs) = grouped(d);
        assert forall|x: Seq<char>| d.contains(x) implies ws.contains(x) by {
            let i = choose|i: int| 0 <= i < d.len() && d[i] == x;
            assert(ws[i] == x);
        }
        assert(ws[ws.len() - 1] == w);
        assert(ws.contains(w));
        if w.len() == 5 && mask_of(w) is Some {
            let m = mask_of(w).unwrap();
            if ms.contains(m) {
                let i = ms.index_of(m);
                assert(0 <= i < ms.len() && ms[i] == m);
            }
        }
    }
}

/// Every mask key carries at most as many entries as the dictionary has
/// words, so the key list is never longer than the dictionary.
pub proof fn lemma_grouped_len(ws: Seq<Seq<char>>)
    ensures
        grouped(ws).0.len() <= ws.len(),
    decreases ws.len(),
{
    if ws.len() > 0 {
        lemma_grouped_len(ws.drop_last());
    }
}

/// Every mask key has a letter set: it came from a five-letter word.
pub proof fn lemma_grouped_masks_nonzero(ws: Seq<Seq<char>>)
    requires
        forall|i: int| 0 <= i < ws.len() ==> all_lower(#[trigger] ws[i]),
    ensures
        forall|x: u32| grouped(ws).0.contains(x) ==> x != 0,
{
    let ms = grouped(ws).0;
    let gs = grouped(ws).1;
    lemma_grouped_wf(ws);
    assert forall|x: u32| ms.contains(x) implies x != 0 by {
        let i = choose|i: int| 0 <= i < ms.len() && ms[i] == x;
        let w = gs[i][0];
        assert(mask_of(w) == Some(ms[i]) && w.len() == 5 && ws.contains(w));
        let q = choose|q: int| 0 <= q < ws.len() && ws[q] == w;
        assert(all_lower(ws[q]));
        crate::mask::lemma_mask_nonzero(w);
    }
}

/// Finds the position of `m` among the known masks.
fn find_mask(masks: &Vec<u32>, m: u32) -> (r: Option<usize>)
    ensures
        match r {
            Some(i) => i < masks@.len() && masks@[i as int] == m,
            None => !masks@.contains(m),
        },
{
    let mut i: usize = 0;
    while i < masks.len()
        invariant
            0 <= i <= masks@.len(),
            forall|k: int| 0 <= k < i ==> masks@[k] != m,
        decreases masks@.len() - i,
    {
        if masks[i] == m {
            return Some(i);
        }
        i = i + 1;
    }
    None
}

/// Builds the anagram groups of the dictionary, in order.
pub fn group_words<'a>(input: &Vec<&'a str>) -> (g: Groups<'a>)
    requires
        forall|i: int| 0 <= i < input@.len() ==> all_lower(#[trigger] input@[i]@),
    ensures
        g.masks@ == grouped(input.deep_view()).0,
        g.words.deep_view() == grouped(input.deep_view()).1,
{
    let ghost ws = input.deep_view();
    proof {
        assert forall|k: int| 0 <= k < ws.len() implies ws[k] == input@[k]@ && all_lower(ws[k]) by {}
    }
    let mut masks: Vec<u32> = Vec::new();
    let mut words: Vec<Vec<&'a str>> = Vec::new();
    let mut i: usize = 0;
    while i < input.len()
        invariant
            ws == input.deep_view(),
            ws.len() == input@.len(),
            forall|k: int| 0 <= k < ws.len() ==> ws[k] == input@[k]@ && all_lower(#[trigger] ws[k]),
            0 <= i <= input@.len(),
            masks@ == grouped(ws.take(i as int)).0,
            words.deep_view() == grouped(ws.take(i as int)).1,
        decreases input@.len() - i,
    {
        let ghost pre = ws.take(i as int);
        let ghost ms = grouped(pre).0;
        let ghost gs = grouped(pre).1;
        proof {
            assert(ws.take(i + 1).drop_last() =~= pre);
            assert(ws.take(i + 1).last() == ws[i as int]);
            lemma_grouped_wf(pre);
        }
        let word = input[i];
        assert(word@ == ws[i as int]);
        if word.unicode_len() == 5 {
            if let Some(m) = get_mask(word) {
                match find_mask(&masks, m) {
                    Some(gi) => {
                        proof {
                            // The key list has no duplicates, so the spec's
                            // chosen index is the one the scan found.
                            assert(ms.contains(m));
                            let si = ms.index_of(m);
                            assert(0 <= si < ms.len() && ms[si] == m);
                            assert(si == gi as int);
                        }
                        let mut grp = words.remove(gi);
                        grp.push(word);
                        words.insert(gi, grp);
                        proof {
                            assert(words.deep_view() =~~= gs.update(
                                gi as int,
                                gs[gi as int].push(word@),
                            ));
                        }
                    },
                    None => {
                        masks.push(m);
                        let mut grp: Vec<&'a str> = Vec::new();
                        grp.push(word);
                        words.push(grp);
                        proof {
                            assert(words.deep_view() =~~= gs.push(seq![word@]));
                        }
                    },
                }
            }
        }
        i = i + 1;
        proof {
            assert(masks@ == grouped(ws.take(i as int)).0);
            assert(words.deep_view() == grouped(ws.take(i as int)).1);
        }
    }
    proof {
        assert(ws.take(ws.len() as int) =~= ws);
    }
    Groups { masks, words }
}

} // verus!
