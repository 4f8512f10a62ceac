//! A reference-counted string slice: a cheap, shareable view over an owned,
//! immutable character buffer, with offset and length.
//!
//! All slicing operations are O(1) and never copy the underlying text;
//! requests past the end clamp to the nearest valid (possibly empty)
//! sub-range instead of failing.

use std::rc::Rc;
use vstd::prelude::*;
use vstd::std_specs::iter::IteratorSpec;

use crate::newlines::count_newlines_range;
use crate::newlines::nl_count;

verus! {

/// One end of a requested range: a closed bound, an open bound, or no bound.
#[derive(Clone, Copy, Debug, PartialEq, Eq, Structural)]
pub enum Bound {
    Included(usize),
    Excluded(usize),
    Unbounded,
}

/// The position a range starts at, under the policy that an unbounded start
/// means the beginning.
pub open spec fn start_of(b: Bound) -> int {
    match b {
        Bound::Included(x) => x as int,
        Bound::Excluded(x) => x + 1,
        Bound::Unbounded => 0,
    }
}

/// The requested length of a range whose resolved start is `start`, over a
/// span of `total` characters; an unbounded end means the rest of the span,
/// clamped to empty when `start` is already past it.
pub open spec fn len_of(b: Bound, start: int, total: int) -> int {
    match b {
        Bound::Included(x) => x - start + 1,
        Bound::Excluded(x) => x - start,
        Bound::Unbounded => if start <= total {
            total - start
        } else {
            0
        },
    }
}

/// A range request is well formed when its end does not precede its resolved
/// start and the bounds stay within machine limits. Out-of-bounds magnitude
/// alone is always acceptable: it clamps rather than faults.
pub open spec fn range_ok(start_b: Bound, end_b: Bound) -> bool {
    &&& match start_b {
        Bound::Excluded(x) => x < usize::MAX,
        _ => true,
    }
    &&& match end_b {
        Bound::Included(x) => start_of(start_b) <= x && x < usize::MAX,
        Bound::Excluded(x) => start_of(start_b) <= x,
        Bound::Unbounded => true,
    }
}

/// The sub-span of `s` that a request for `n` characters starting at `idx`
/// yields under the clamping policy: a start past the end gives an empty
/// result, and an over-long request truncates at the end of `s`.
pub open spec fn clipped(s: Seq<char>, idx: int, n: int) -> Seq<char>
    recommends
        0 <= idx,
        0 <= n,
{
    let i = if idx <= s.len() {
        idx
    } else {
        s.len() as int
    };
    let k = if n <= s.len() - i {
        n
    } else {
        s.len() - i
    };
    s.subrange(i, i + k)
}

/// Within bounds nothing clamps: a request for `[start, start + n)` yields
/// exactly the characters at those positions of the original, so slicing
/// and then iterating agrees with iterating the original.
pub proof fn lemma_clipped_in_bounds(s: Seq<char>, start: int, n: int)
    requires
        0 <= start,
        0 <= n,
        start + n <= s.len(),
    ensures
        clipped(s, start, n) == s.subrange(start, start + n),
{
    assert(clipped(s, start, n) =~= s.subrange(start, start + n));
}

/// A request starting at the end yields nothing, however much was asked for.
pub proof fn lemma_clipped_at_end(s: Seq<char>, n: int)
    requires
        0 <= n,
    ensures
        clipped(s, s.len() as int, n).len() == 0,
{
}

/// A request from the beginning for at least the whole span yields all of it.
pub proof fn lemma_clipped_whole(s: Seq<char>, n: int)
    requires
        n >= s.len(),
    ensures
        clipped(s, 0, n) == s,
{
    assert(clipped(s, 0, n) =~= s);
}

/// A reference-counted view over an owned character buffer: O(1) sub-slicing
/// over a shared backing buffer that is never mutated after creation.
#[derive(Debug)]
pub struct RcString {
    base: Rc<Vec<char>>,
    off: usize,
    len: usize,
}

impl View for RcString {
    type V = Seq<char>;

    closed spec fn view(&self) -> Seq<char> {
        self.base@.subrange(self.off as int, self.off + self.len)
    }
}

impl RcString {
    /// The view stays within the shared backing buffer.
    #[verifier::type_invariant]
    spec fn inv(self) -> bool {
        self.off + self.len <= self.base@.len() && self.base@.len() <= usize::MAX
    }

    /// Make a slice that owns a private copy of `text`, covering all of it.
    pub fn new(text: &str) -> (r: Self)
        ensures
            r@ == text@,
    {
        let base = chars_of(text);
        let len = base.len();
        let r = RcString { base: Rc::new(base), off: 0, len };
        proof {
            assert(r@ =~= text@);
        }
        r
    }

    /// The number of characters in the view.
    pub fn len(&self) -> (r: usize)
        ensures
            r == self@.len(),
    {
        proof {
            use_type_invariant(&*self);
        }
        self.len
    }

    /// The character at position `i` of the view.
    pub fn char_at(&self, i: usize) -> (c: char)
        requires
            i < self@.len(),
        ensures
            c == self@[i as int],
    {
        proof {
            use_type_invariant(&*self);
        }
        (*self.base)[self.off + i]
    }

    /// The visible characters, materialized as an owned string.
    pub fn str(&self) -> (r: String)
        ensures
            r@ == self@,
    {
        proof {
            use_type_invariant(&*self);
        }
        let n = self.len();
        let mut out: Vec<char> = Vec::new();
        let mut i: usize = 0;
        while i < n
            invariant
                i <= n,
                n == self@.len(),
                out@ == self@.take(i as int),
            decreases n - i,
        {
            proof {
                assert(self@.take(i + 1) =~= self@.take(i as int) + seq![self@[i as int]]);
            }
            out.push(self.char_at(i));
            i = i + 1;
        }
        proof {
            assert(out@ =~= self@);
        }
        string_from_chars(&out)
    }

    /// A sub-view starting at `off` with up to `len` characters, sharing the
    /// same backing buffer. An `off` past the end yields an empty result;
    /// otherwise the result holds `min(len, self.len() - off)` characters.
    pub fn substr(&self, off: usize, len: usize) -> (r: Self)
        ensures
            r@ == clipped(self@, off as int, len as int),
            off + len <= self@.len() ==> r@ == self@.subrange(off as int, off + len),
            off >= self@.len() ==> r@.len() == 0,
            off == 0 && len >= self@.len() ==> r@ == self@,
    {
        proof {
            use_type_invariant(&*self);
        }
        let start = if off <= self.len {
            off
        } else {
            self.len
        };
        let n = if len <= self.len - start {
            len
        } else {
            self.len - start
        };
        let r = RcString { base: Rc::clone(&self.base), off: self.off + start, len: n };
        proof {
            assert(r@ =~= clipped(self@, off as int, len as int));
        }
        r
    }

    /// Same as [`RcString::substr`], taking the range as a pair of bounds;
    /// open ends resolve to the beginning or to the rest of the view.
    pub fn slice(&self, start_b: Bound, end_b: Bound) -> (r: Self)
        requires
            range_ok(start_b, end_b),
        ensures
            r@ == clipped(
                self@,
                start_of(start_b),
                len_of(end_b, start_of(start_b), self@.len() as int),
            ),
    {
        proof {
            use_type_invariant(&*self);
        }
        let start: usize = match start_b {
            Bound::Included(b) => b,
            Bound::Excluded(b) => b + 1,
            Bound::Unbounded => 0,
        };
        let n: usize = match end_b {
            Bound::Included(b) => (b - start) + 1,
            Bound::Excluded(b) => b - start,
            Bound::Unbounded => if start <= self.len {
                self.len - start
            } else {
                0
            },
        };
        self.substr(start, n)
    }

    /// The number of newline characters within the view, recounted on demand.
    pub fn lenlines(&self) -> (r: usize)
        ensures
            r == nl_count(self@),
    {
        proof {
            use_type_invariant(&*self);
        }
        count_newlines_range(&self.base, self.off, self.off + self.len)
    }
}

impl Clone for RcString {
    /// A clone shares the same backing buffer and shows the same characters.
    fn clone(&self) -> (r: Self)
        ensures
            r == *self,
    {
        proof {
            use_type_invariant(&*self);
        }
        RcString { base: Rc::clone(&self.base), off: self.off, len: self.len }
    }
}

impl PartialEq for RcString {
    /// Two slices are equal iff their visible character sequences are equal,
    /// whether or not they share a buffer.
    fn eq(&self, other: &Self) -> (r: bool) {
        proof {
            use_type_invariant(&*self);
            use_type_invariant(&*other);
        }
        if self.len != other.len {
            proof {
                assert(self@.len() != other@.len());
            }
            return false;
        }
        let mut i: usize = 0;
        while i < self.len
            invariant
                i <= self.len,
                self.len == other.len,
                self.off + self.len <= self.base@.len() <= usize::MAX,
                other.off + other.len <= other.base@.len() <= usize::MAX,
                self@.len() == self.len,
                other@.len() == other.len,
                forall|j: int| 0 <= j < i ==> self@[j] == other@[j],
            decreases self.len - i,
        {
            if (*self.base)[self.off + i] != (*other.base)[other.off + i] {
                proof {
                    assert(self@[i as int] != other@[i as int]);
                }
                return false;
            }
            i = i + 1;
        }
        proof {
            assert(self@ =~= other@);
        }
        true
    }
}

impl vstd::std_specs::cmp::PartialEqSpecImpl for RcString {
    open spec fn obeys_eq_spec() -> bool {
        true
    }

    open spec fn eq_spec(&self, other: &Self) -> bool {
        self@ == other@
    }
}

/// Collect the characters of `s` into a vector, one pass over the string.
fn chars_of(s: &str) -> (v: Vec<char>)
    ensures
        v@ == s@,
{
    broadcast use vstd::string::group_string_axioms;

    let mut v: Vec<char> = Vec::new();
    let mut it = s.chars();
    loop
        invariant
            it.obeys_prophetic_iter_laws(),
            it.decrease() is Some,
            v@ + it.remaining() == s@,
        decreases it.decrease()->0,
    {
        let ghost pre = it.remaining();
        match it.next() {
            Some(c) => {
                proof {
                    assert((v@ + seq![c]) + pre.drop_first() =~= v@ + pre);
                }
                v.push(c);
            },
            None => {
                proof {
                    assert(v@ + pre =~= v@);
                }
                return v;
            },
        }
    }
}

/// Relies on `String::from_iter`: collecting characters in order yields the
/// string of exactly those characters.
#[verifier::external_body]
fn string_from_chars(v: &Vec<char>) -> (r: String)
    ensures
        r@ == v@,
{
    v.iter().collect()
}

} // verus!
