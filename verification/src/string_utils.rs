//! Character-indexed string helpers: substrings by character position and
//! padding to a character count.

use vstd::prelude::*;
use vstd::string::StrSliceExecFns;
use vstd::string::StringExecFns;
use crate::text::push_char;

verus! {

/// The characters of `s` from `start` (inclusive) to `end` (exclusive),
/// counted in characters and clamped to the string's length.
pub open spec fn spec_substring(s: Seq<char>, start: int, end: int) -> Seq<char>
    recommends
        0 <= start <= end,
{
    let lo = if start <= s.len() {
        start
    } else {
        s.len() as int
    };
    let hi = if end <= s.len() {
        end
    } else {
        s.len() as int
    };
    if lo <= hi {
        s.subrange(lo, hi)
    } else {
        Seq::<char>::empty()
    }
}

/// `count` copies of the character `c`.
pub open spec fn spec_repeat(c: char, count: int) -> Seq<char>
    recommends
        count >= 0,
{
    Seq::<char>::new(if count >= 0 {
        count as nat
    } else {
        0
    }, |i: int| c)
}

/// String helpers indexed by character position rather than byte position.
pub trait AdvancedStringMethods {
    /// The characters of the string.
    spec fn text(&self) -> Seq<char>;

    /// The characters from position `start` to position `end` (exclusive).
    fn substring(&self, start: usize, end: usize) -> (r: String)
        requires
            start <= end,
        ensures
            r@ == spec_substring(self.text(), start as int, end as int),
    ;

    /// The characters from position `count` to the end.
    fn substring_start(&self, count: usize) -> (r: String)
        ensures
            r@ == spec_substring(self.text(), count as int, self.text().len() as int),
    ;

    /// The characters up to `count` positions before the end.
    fn substring_end(&self, count: usize) -> (r: String)
        ensures
            r@ == spec_substring(self.text(), 0, self.text().len() - count),
    ;

    /// The string left-padded with `pad_char` to `length` characters.
    fn pad_left(&self, length: usize, pad_char: char) -> (r: String)
        ensures
            self.text().len() >= length ==> r@ == self.text(),
            self.text().len() < length ==> r@ == spec_repeat(
                pad_char,
                length - self.text().len(),
            ) + self.text(),
    ;

    /// The string right-padded with `pad_char` to `length` characters.
    fn pad_right(&self, length: usize, pad_char: char) -> (r: String)
        ensures
            self.text().len() >= length ==> r@ == self.text(),
            self.text().len() < length ==> r@ == self.text() + spec_repeat(
                pad_char,
                length - self.text().len(),
            ),
    ;
}

/// Copies the characters of `s` with positions in `[lo, hi)` into a new
/// string.
fn copy_chars(s: &str, lo: usize, hi: usize) -> (r: String)
    requires
        lo <= hi,
        hi as nat <= s@.len(),
    ensures
        r@ == s@.subrange(lo as int, hi as int),
{
    let mut out = String::new();
    let mut i: usize = lo;
    proof {
        assert(s@.subrange(lo as int, lo as int) =~= out@);
    }
    while i < hi
        invariant
            lo <= i <= hi,
            hi as nat <= s@.len(),
            out@ == s@.subrange(lo as int, i as int),
        decreases hi - i,
    {
        let c = s.get_char(i);
        push_char(&mut out, c);
        proof {
            assert(out@ =~= s@.subrange(lo as int, i + 1));
        }
        i = i + 1;
    }
    out
}

/// A string of `count` copies of `c`.
fn repeat_char(c: char, count: usize) -> (r: String)
    ensures
        r@ == spec_repeat(c, count as int),
{
    let mut out = String::new();
    let mut i: usize = 0;
    while i < count
        invariant
            i <= count,
            out@ == spec_repeat(c, i as int),
        decreases count - i,
    {
        push_char(&mut out, c);
        proof {
            assert(out@ =~= spec_repeat(c, i + 1));
        }
        i = i + 1;
    }
    out
}

impl AdvancedStringMethods for str {
    open spec fn text(&self) -> Seq<char> {
        self@
    }

    fn substring(&self, start: usize, end: usize) -> (r: String) {
        let n = self.unicode_len();
        let lo = if start <= n {
            start
        } else {
            n
        };
        let hi = if end <= n {
            end
        } else {
            n
        };
        copy_chars(self, lo, hi)
    }

    fn substring_start(&self, count: usize) -> (r: String) {
        let n = self.unicode_len();
        let lo = if count <= n {
            count
        } else {
            n
        };
        copy_chars(self, lo, n)
    }

    fn substring_end(&self, count: usize) -> (r: String) {
        let n = self.unicode_len();
        if count >= n {
            proof {
                assert(Seq::<char>::empty() =~= spec_substring(
                    self@,
                    0,
                    self@.len() - count as int,
                ));
            }
            return String::new();
        }
        copy_chars(self, 0, n - count)
    }

    fn pad_left(&self, length: usize, pad_char: char) -> (r: String) {
        let n = self.unicode_len();
        if n >= length {
            return self.to_owned();
        }
        let mut out = repeat_char(pad_char, length - n);
        out.append(self);
        out
    }

    fn pad_right(&self, length: usize, pad_char: char) -> (r: String) {
        let n = self.unicode_len();
        if n >= length {
            return self.to_owned();
        }
        let pad = repeat_char(pad_char, length - n);
        let mut out = self.to_owned();
        out.append(pad.as_str());
        out
    }
}

impl AdvancedStringMethods for String {
    open spec fn text(&self) -> Seq<char> {
        self@
    }

    fn substring(&self, start: usize, end: usize) -> (r: String) {
        self.as_str().substring(start, end)
    }

    fn substring_start(&self, count: usize) -> (r: String) {
        self.as_str().substring_start(count)
    }

    fn substring_end(&self, count: usize) -> (r: String) {
        self.as_str().substring_end(count)
    }

    fn pad_left(&self, length: usize, pad_char: char) -> (r: String) {
        self.as_str().pad_left(length, pad_char)
    }

    fn pad_right(&self, length: usize, pad_char: char) -> (r: String) {
        self.as_str().pad_right(length, pad_char)
    }
}

} // verus!
