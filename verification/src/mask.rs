//! Letter-set encoding: a word becomes a 26-bit mask with one bit per letter.

use vstd::prelude::*;

verus! {

/// A lowercase ASCII letter `a`..=`z`.
pub open spec fn is_lower(c: char) -> bool {
    97 <= (c as u32) && (c as u32) <= 122
}

/// Every character of the word is a lowercase ASCII letter.
pub open spec fn all_lower(s: Seq<char>) -> bool {
    forall|i: int| 0 <= i < s.len() ==> is_lower(#[trigger] s[i])
}

/// The single bit standing for one letter: bit `c - 'a'`.
pub open spec fn char_bit(c: char) -> u32 {
    1u32 << (((c as u32) - 97) as u32)
}

/// The letter-set mask of a word, or `None` when some letter repeats.
pub open spec fn mask_of(s: Seq<char>) -> Option<u32>
    decreases s.len(),
{
    if s.len() == 0 {
        Some(0u32)
    } else {
        match mask_of(s.drop_last()) {
            None => None,
            Some(m) => if m & char_bit(s.last()) != 0 {
                None
            } else {
                Some(m | char_bit(s.last()))
            },
        }
    }
}

/// Two lowercase letters with the same code point are the same letter.
proof fn lemma_lower_char_eq(c: char, d: char)
    requires
        is_lower(c),
        is_lower(d),
        c as u32 == d as u32,
    ensures
        c == d,
{
}

/// Once a prefix of the word fails to encode, the whole word fails too.
proof fn lemma_mask_none_extends(s: Seq<char>, n: int)
    requires
        0 <= n <= s.len(),
        mask_of(s.subrange(0, n)) is None,
    ensures
        mask_of(s) is None,
    decreases s.len() - n,
{
    if n == s.len() {
        assert(s.subrange(0, n) =~= s);
    } else {
        assert(s.subrange(0, n + 1).drop_last() =~= s.subrange(0, n));
        lemma_mask_none_extends(s, n + 1);
    }
}

/// What the mask means: bit `c - 'a'` is set exactly when the word contains
/// `c`, and a word that encodes has no repeated letter.
pub proof fn lemma_mask_bits(s: Seq<char>)
    requires
        all_lower(s),
        mask_of(s) is Some,
    ensures
        s.no_duplicates(),
        forall|c: char|
            is_lower(c) ==> ((mask_of(s).unwrap() & char_bit(c) != 0) <==> s.contains(c)),
    decreases s.len(),
{
    if s.len() == 0 {
        assert forall|c: char| is_lower(c) implies !(mask_of(s).unwrap() & char_bit(c) != 0) by {
            let b = char_bit(c);
            assert(0u32 & b == 0) by (bit_vector);
        }
    } else {
        let d = s.drop_last();
        let last = s.last();
        assert(last == s[s.len() - 1] && is_lower(last));
        assert(all_lower(d));
        lemma_mask_bits(d);
        let m = mask_of(d).unwrap();
        let b = char_bit(last);
        let r = mask_of(s).unwrap();
        assert(r == m | b);

        // The bit of the last letter collides with the bit of `c` only when
        // the letters are equal.
        assert forall|c: char| is_lower(c) implies ((b & char_bit(c) != 0) <==> c == last) by {
            let o1: u32 = ((last as u32) - 97) as u32;
            let o2: u32 = ((c as u32) - 97) as u32;
            assert(o1 < 26 && o2 < 26);
            assert(((1u32 << o1) & (1u32 << o2) != 0) <==> o1 == o2) by (bit_vector)
                requires
                    o1 < 26 && o2 < 26,
            ;
            if o1 == o2 {
                assert(c as u32 == last as u32);
                lemma_lower_char_eq(c, last);
            }
        }

        assert forall|c: char| is_lower(c) implies ((r & char_bit(c) != 0) <==> s.contains(c)) by {
            let cb = char_bit(c);
            assert(((m | b) & cb != 0) <==> (m & cb != 0 || b & cb != 0)) by (bit_vector);
            if s.contains(c) {
                let i = choose|i: int| 0 <= i < s.len() && s[i] == c;
                if i < s.len() - 1 {
                    assert(d[i] == c);
                    assert(d.contains(c));
                } else {
                    assert(c == last);
                }
            }
            if m & cb != 0 {
                assert(d.contains(c));
                let i = choose|i: int| 0 <= i < d.len() && d[i] == c;
                assert(s[i] == c);
            }
            if b & cb != 0 {
                assert(s[s.len() - 1] == c);
            }
        }

        // No repeated letter: the last letter's bit was still clear.
        assert(is_lower(last));
        assert(m & b == 0);
        assert(!d.contains(last));
        assert forall|i: int, j: int| 0 <= i < j < s.len() implies s[i] != s[j] by {
            if j < s.len() - 1 {
                assert(d[i] == s[i] && d[j] == s[j]);
            } else {
                assert(d[i] == s[i]);
                if s[i] == last {
                    assert(d.contains(last));
                }
            }
        }
    }
}

/// A non-empty word that encodes has a mask with at least one bit set.
pub proof fn lemma_mask_nonzero(s: Seq<char>)
    requires
        all_lower(s),
        s.len() > 0,
        mask_of(s) is Some,
    ensures
        mask_of(s).unwrap() != 0,
{
    let d = s.drop_last();
    let last = s.last();
    assert(last == s[s.len() - 1] && is_lower(last));
    let m = mask_of(d).unwrap();
    let o: u32 = ((last as u32) - 97) as u32;
    assert(o < 26);
    assert(mask_of(s).unwrap() == m | (1u32 << o));
    assert((m | (1u32 << o)) != 0) by (bit_vector)
        requires
            o < 26,
    ;
}

/// Masks without a common bit stand for words without a common letter.
pub proof fn lemma_disjoint_masks_disjoint_letters(s1: Seq<char>, s2: Seq<char>)
    requires
        all_lower(s1),
        all_lower(s2),
        mask_of(s1) is Some,
        mask_of(s2) is Some,
        mask_of(s1).unwrap() & mask_of(s2).unwrap() == 0,
    ensures
        forall|c: char| !(s1.contains(c) && s2.contains(c)),
{
    lemma_mask_bits(s1);
    lemma_mask_bits(s2);
    let m1 = mask_of(s1).unwrap();
    let m2 = mask_of(s2).unwrap();
    assert forall|c: char| !(s1.contains(c) && s2.contains(c)) by {
        if s1.contains(c) && s2.contains(c) {
            assert(is_lower(c));
            let o: u32 = ((c as u32) - 97) as u32;
            assert(m1 & (1u32 << o) != 0 && m2 & (1u32 << o) != 0);
            assert(!(m1 & m2 == 0 && m1 & (1u32 << o) != 0 && m2 & (1u32 << o) != 0))
                by (bit_vector);
        }
    }
}

/// Sets a bit for every letter present. If a letter is present multiple
/// times, returns `None`.
pub fn get_mask(word: &str) -> (r: Option<u32>)
    requires
        all_lower(word@),
    ensures
        r == mask_of(word@),
{
    let n = word.unicode_len();
    let mut m: u32 = 0;
    let mut i: usize = 0;
    while i < n
        invariant
            all_lower(word@),
            n == word@.len(),
            0 <= i <= n,
            mask_of(word@.subrange(0, i as int)) == Some(m),
        decreases n - i,
    {
        let c = word.get_char(i);
        assert(is_lower(c));
        let code: u32 = c as u32;
        let b: u32 = 1u32 << (code - 97);
        assert(b == char_bit(c));
        proof {
            assert(word@.subrange(0, i + 1).drop_last() =~= word@.subrange(0, i as int));
            assert(word@.subrange(0, i + 1).last() == c);
        }
        if m & b != 0 {
            proof {
                lemma_mask_none_extends(word@, i + 1);
            }
            return None;
        }
        m = m | b;
        i = i + 1;
    }
    proof {
        assert(word@.subrange(0, n as int) =~= word@);
    }
    Some(m)
}

} // verus!
