//! Fixed character sets (word characters, digits, whitespace) and ASCII
//! ranges, together with the `CharSet` container they are stored in.

use vstd::prelude::*;
use vstd::string::StrSliceExecFns;

verus! {

broadcast use vstd::utf8::char_u32_cast, vstd::utf8::char_is_scalar;

/// A finite set of characters, stored as a growable sequence.
/// Its abstract value (the view) is the set of characters that occur in
/// the sequence; duplicates and order do not matter.
pub struct CharSet {
    pub chars: Vec<char>,
}

impl View for CharSet {
    type V = Set<char>;

    open spec fn view(&self) -> Set<char> {
        self.chars@.to_set()
    }
}

impl CharSet {
    pub fn new() -> (s: CharSet)
        ensures
            s@ == Set::<char>::empty(),
            s.chars@.len() == 0,
    {
        let s = CharSet { chars: Vec::new() };
        proof {
            assert(s@ =~= Set::<char>::empty());
        }
        s
    }

    pub fn insert(&mut self, c: char)
        ensures
            final(self)@ == old(self)@.insert(c),
            final(self).chars@.len() > 0,
    {
        self.chars.push(c);
        proof {
            old(self).chars@.lemma_push_to_set_commute(c);
            assert(self@ =~= old(self)@.insert(c));
        }
    }

    /// The number of stored characters (an upper bound on the size of the
    /// abstract set).
    pub fn len(&self) -> (n: usize)
        ensures
            n == self.chars@.len(),
    {
        self.chars.len()
    }

    pub fn contains(&self, c: char) -> (r: bool)
        ensures
            r == self@.contains(c),
    {
        let mut i: usize = 0;
        while i < self.chars.len()
            invariant
                i <= self.chars@.len(),
                forall|k: int| 0 <= k < i ==> self.chars@[k] != c,
            decreases self.chars@.len() - i,
        {
            if self.chars[i] == c {
                return true;
            }
            i = i + 1;
        }
        false
    }

    /// Adds every character of `other` to this set.
    pub fn extend(&mut self, other: &CharSet)
        ensures
            final(self)@ == old(self)@.union(other@),
    {
        let ghost init = self@;
        let mut i: usize = 0;
        proof {
            assert(init.union(other.chars@.take(0).to_set()) =~= init);
        }
        while i < other.chars.len()
            invariant
                i <= other.chars@.len(),
                self@ == init.union(other.chars@.take(i as int).to_set()),
            decreases other.chars@.len() - i,
        {
            self.insert(other.chars[i]);
            proof {
                other.chars@.take(i as int).lemma_push_to_set_commute(other.chars@[i as int]);
                assert(other.chars@.take(i + 1) =~= other.chars@.take(i as int).push(other.chars@[i as int]));
                assert(self@ =~= init.union(other.chars@.take(i + 1).to_set()));
            }
            i = i + 1;
        }
        proof {
            assert(other.chars@.take(other.chars@.len() as int) =~= other.chars@);
            assert(self@ =~= init.union(other@));
        }
    }
}

/// The set of characters whose code point lies in the half-open range
/// `[lo, hi)`.
pub open spec fn spec_char_range(lo: u8, hi: u8) -> Set<char> {
    Set::new(|c: char| (lo as u32) <= (c as u32) && (c as u32) < (hi as u32))
}

proof fn lemma_char_range_insert(lo: u8, b: u8)
    requires
        lo <= b,
        b < 255,
    ensures
        spec_char_range(lo, (b + 1) as u8) == spec_char_range(lo, b).insert(b as char),
{
    assert forall|c: char|
        #[trigger] spec_char_range(lo, (b + 1) as u8).contains(c)
            == spec_char_range(lo, b).insert(b as char).contains(c) by {
        vstd::utf8::char_u32_cast(c, c as u32);
    }
    assert(spec_char_range(lo, (b + 1) as u8) =~= spec_char_range(lo, b).insert(b as char));
}

/// Inserts every character with code point in `[lo, hi)`.
fn insert_char_range(s: &mut CharSet, lo: u8, hi: u8)
    ensures
        final(s)@ == old(s)@.union(spec_char_range(lo, hi)),
{
    let ghost init = s@;
    let mut b: u8 = lo;
    proof {
        assert(init.union(spec_char_range(lo, lo)) =~= init);
    }
    if hi <= lo {
        proof {
            assert(spec_char_range(lo, hi) =~= spec_char_range(lo, lo));
        }
        return;
    }
    while b < hi
        invariant
            lo <= b,
            b <= hi,
            s@ == init.union(spec_char_range(lo, b)),
        decreases hi - b,
    {
        s.insert(b as char);
        proof {
            lemma_char_range_insert(lo, b);
            assert(s@ =~= init.union(spec_char_range(lo, (b + 1) as u8)));
        }
        b = b + 1;
    }
}

/// A word character: a letter, a digit or an underscore.
pub open spec fn is_word_char(c: char) -> bool {
    ('a' as u32) <= (c as u32) <= ('z' as u32)
    || ('A' as u32) <= (c as u32) <= ('Z' as u32)
    || ('0' as u32) <= (c as u32) <= ('9' as u32)
    || c == '_'
}

pub open spec fn spec_word_chars() -> Set<char> {
    Set::new(|c: char| is_word_char(c))
}

/// The character set matched by the `\w` escape.
pub fn word_chars() -> (s: CharSet)
    ensures
        s@ == spec_word_chars(),
{
    let mut s = CharSet::new();
    insert_char_range(&mut s, 97, 123);
    insert_char_range(&mut s, 65, 91);
    insert_char_range(&mut s, 48, 58);
    s.insert('_');
    proof {
        assert(s@ =~= spec_word_chars());
    }
    s
}

pub open spec fn is_digit_char(c: char) -> bool {
    ('0' as u32) <= (c as u32) <= ('9' as u32)
}

pub open spec fn spec_digits() -> Set<char> {
    Set::new(|c: char| is_digit_char(c))
}

/// The character set matched by the `\d` escape.
pub fn digits() -> (s: CharSet)
    ensures
        s@ == spec_digits(),
{
    let mut s = CharSet::new();
    insert_char_range(&mut s, 48, 58);
    proof {
        assert(s@ =~= spec_digits());
    }
    s
}

pub open spec fn spec_whitespace() -> Set<char> {
    Set::new(|c: char| c == ' ' || c == '\t')
}

/// The character set matched by the `\s` escape: a space or a tab.
pub fn whitespace() -> (s: CharSet)
    ensures
        s@ == spec_whitespace(),
{
    let mut s = CharSet::new();
    s.insert(' ');
    s.insert('\t');
    proof {
        assert(s@ =~= spec_whitespace());
    }
    s
}

/// The characters of the half-open byte range `[low, high)`, or the
/// offending pair when `high < low`.
pub fn range(low: u8, high: u8) -> (r: Result<CharSet, (u8, u8)>)
    ensures
        high < low <==> r is Err,
        r matches Err(e) ==> e == (low, high),
        r matches Ok(s) ==> s@ == spec_char_range(low, high),
{
    if high < low {
        return Err((low, high));
    }
    let mut s = CharSet::new();
    insert_char_range(&mut s, low, high);
    proof {
        assert(Set::<char>::empty().union(spec_char_range(low, high)) =~= spec_char_range(low, high));
    }
    Ok(s)
}

/// The characters of `s`, in order.
pub(crate) fn to_char_vec(s: &str) -> (v: Vec<char>)
    ensures
        v@ == s@,
{
    let n = s.unicode_len();
    let mut v: Vec<char> = Vec::new();
    let mut i: usize = 0;
    while i < n
        invariant
            i <= n,
            n == s@.len(),
            v@ == s@.take(i as int),
        decreases n - i,
    {
        v.push(s.get_char(i));
        proof {
            assert(v@ =~= s@.take(i + 1));
        }
        i = i + 1;
    }
    proof {
        assert(s@.take(n as int) =~= s@);
    }
    v
}

} // verus!

