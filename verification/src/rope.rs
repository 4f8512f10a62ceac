//! A persistent binary tree ("rope") of shared string slices.
//!
//! Leaves hold [`RcString`] views; internal nodes cache the character count
//! and newline count of their left subtree, so index and line queries run in
//! time proportional to tree depth. Every operation is pure: new values are
//! returned, existing nodes are never mutated, and subtrees are shared by
//! reference count. Only the left subtree's counts are cached, so `len` and
//! `lenlines` walk the rightmost spine; this is a known cost of the design,
//! kept on purpose.

use std::rc::Rc;
use vstd::prelude::*;

use crate::newlines::lemma_nl_count_concat;
use crate::newlines::lemma_nl_count_le_len;
use crate::newlines::nl_count;
use crate::rcstring::Bound;
use crate::rcstring::RcString;
use crate::rcstring::clipped;
use crate::rcstring::len_of;
use crate::rcstring::range_ok;
use crate::rcstring::start_of;

verus! {

/// An internal fork: a left and a right sub-rope, with the left sub-rope's
/// character count and newline count cached at construction time.
pub struct Node {
    leftn: usize,
    leftnnl: usize,
    left: Rope,
    right: Rope,
}

/// A rope: either a leaf holding one shared string slice, or a node forking
/// into two sub-ropes.
pub enum Rope {
    Node(Rc<Node>),
    Leaf(RcString),
}

impl Node {
    /// The cached counts equal the recomputed counts of the left child, and
    /// the whole subtree's character count stays within machine limits.
    /// The tree is never mutated in place, so this holds for the lifetime
    /// of the node.
    #[verifier::type_invariant]
    spec fn inv(self) -> bool {
        &&& self.leftn == self.left.content().len()
        &&& self.leftnnl == nl_count(self.left.content())
        &&& self.leftn + self.right.content().len() <= usize::MAX
    }
}

impl Rope {
    /// The character sequence the whole tree represents, leaves left to right.
    pub closed spec fn content(&self) -> Seq<char>
        decreases self,
    {
        match self {
            Rope::Leaf(s) => s@,
            Rope::Node(nd) => nd.left.content() + nd.right.content(),
        }
    }

    /// A single-leaf tree covering all of `s`.
    pub fn new(s: String) -> (r: Self)
        ensures
            r@ == s@,
    {
        Rope::Leaf(RcString::new(s.as_str()))
    }

    /// A new node referencing both arguments, sharing their subtrees; the
    /// result's characters are those of `r1` followed by those of `r2`, so
    /// its length and newline count are the sums of theirs.
    pub fn concat(r1: &Self, r2: &Self) -> (r: Self)
        requires
            r1@.len() + r2@.len() <= usize::MAX,
        ensures
            r@ == r1@ + r2@,
            r@.len() == r1@.len() + r2@.len(),
            nl_count(r@) == nl_count(r1@) + nl_count(r2@),
    {
        let leftn = r1.len();
        let leftnnl = r1.lenlines();
        proof {
            lemma_nl_count_concat(r1@, r2@);
        }
        Rope::Node(Rc::new(Node { leftn, leftnnl, left: r1.clone(), right: r2.clone() }))
    }

    /// Total character count: the cached left count plus the recomputed
    /// right count, so O(depth) along the rightmost spine.
    pub fn len(&self) -> (r: usize)
        ensures
            r == self@.len(),
        decreases *self,
    {
        match self {
            Rope::Leaf(s) => s.len(),
            Rope::Node(nd) => {
                proof {
                    use_type_invariant(&(**nd));
                }
                nd.leftn + nd.right.len()
            },
        }
    }

    /// Total newline count, with the same rightmost-spine cost profile as
    /// [`Rope::len`].
    pub fn lenlines(&self) -> (r: usize)
        ensures
            r == nl_count(self@),
        decreases *self,
    {
        match self {
            Rope::Leaf(s) => s.lenlines(),
            Rope::Node(nd) => {
                proof {
                    use_type_invariant(&(**nd));
                    lemma_nl_count_le_len(nd.left.content());
                    lemma_nl_count_le_len(nd.right.content());
                    lemma_nl_count_concat(nd.left.content(), nd.right.content());
                }
                nd.leftnnl + nd.right.lenlines()
            },
        }
    }
}

/// Grouping does not change the characters: concatenating `a`, `b`, `c`
/// nested to the left or nested to the right yields the same sequence,
/// though possibly different tree shapes.
pub proof fn lemma_concat_content_associative(a: Seq<char>, b: Seq<char>, c: Seq<char>)
    ensures
        (a + b) + c == a + (b + c),
{
    assert((a + b) + c =~= a + (b + c));
}

/// A clipped request that starts past the left part falls entirely in the
/// right part, shifted by the left part's length.
proof fn lemma_clipped_right(l: Seq<char>, r: Seq<char>, idx: int, n: int)
    requires
        idx > l.len(),
        0 <= n,
    ensures
        clipped(l + r, idx, n) == clipped(r, idx - l.len(), n),
{
    assert(clipped(l + r, idx, n) =~= clipped(r, idx - l.len(), n));
}

/// A clipped request that ends strictly before the left part's end falls
/// entirely in the left part.
proof fn lemma_clipped_left(l: Seq<char>, r: Seq<char>, idx: int, n: int)
    requires
        0 <= idx,
        0 <= n,
        idx + n < l.len(),
    ensures
        clipped(l + r, idx, n) == clipped(l, idx, n),
{
    assert(clipped(l + r, idx, n) =~= clipped(l, idx, n));
}

/// A clipped request that straddles the split is the tail of the left part
/// followed by a clipped head of the right part.
proof fn lemma_clipped_split(l: Seq<char>, r: Seq<char>, idx: int, n: int)
    requires
        0 <= idx <= l.len(),
        idx + n >= l.len(),
        0 <= n,
    ensures
        clipped(l + r, idx, n) == clipped(l, idx, l.len() as int) + clipped(
            r,
            0,
            n - (l.len() - idx),
        ),
{
    assert(clipped(l + r, idx, n) =~= clipped(l, idx, l.len() as int) + clipped(
        r,
        0,
        n - (l.len() - idx),
    ));
}

impl Rope {
    /// The sub-tree covering `[idx, idx + n)`, clamped at the end of the
    /// text: a start past the end yields an empty result, an over-long
    /// request truncates. Splits the request at a node boundary and shares
    /// untouched subtrees.
    pub fn char_substr(&self, idx: usize, n: usize) -> (r: Self)
        ensures
            r@ == clipped(self@, idx as int, n as int),
            idx + n <= self@.len() ==> r@ == self@.subrange(idx as int, idx + n),
            idx >= self@.len() ==> r@.len() == 0,
            idx == 0 && n >= self@.len() ==> r@ == self@,
        decreases *self,
    {
        match self {
            Rope::Leaf(rcs) => Rope::Leaf(rcs.substr(idx, n)),
            Rope::Node(nd) => {
                proof {
                    use_type_invariant(&(**nd));
                }
                if idx > nd.leftn {
                    let r = nd.right.char_substr(idx - nd.leftn, n);
                    proof {
                        lemma_clipped_right(nd.left.content(), nd.right.content(), idx as int, n as int);
                    }
                    r
                } else if n < nd.leftn - idx {
                    let r = nd.left.char_substr(idx, n);
                    proof {
                        lemma_clipped_left(nd.left.content(), nd.right.content(), idx as int, n as int);
                    }
                    r
                } else {
                    let lpart = nd.left.char_substr(idx, nd.leftn);
                    let rpart = nd.right.char_substr(0, n - (nd.leftn - idx));
                    proof {
                        lemma_clipped_split(nd.left.content(), nd.right.content(), idx as int, n as int);
                    }
                    Rope::concat(&lpart, &rpart)
                }
            },
        }
    }

    /// Same as [`Rope::char_substr`], taking the range as a pair of bounds;
    /// open ends resolve to the beginning or to the rest of the text.
    pub fn char_slice(&self, start_b: Bound, end_b: Bound) -> (r: Self)
        requires
            range_ok(start_b, end_b),
        ensures
            r@ == clipped(
                self@,
                start_of(start_b),
                len_of(end_b, start_of(start_b), self@.len() as int),
            ),
    {
        let start: usize = match start_b {
            Bound::Included(b) => b,
            Bound::Excluded(b) => b + 1,
            Bound::Unbounded => 0,
        };
        let n: usize = match end_b {
            Bound::Included(b) => (b - start) + 1,
            Bound::Excluded(b) => b - start,
            Bound::Unbounded => {
                let l = self.len();
                if start <= l {
                    l - start
                } else {
                    0
                }
            },
        };
        self.char_substr(start, n)
    }
}

/// The character offset at which the 0-based line `k` of `s` starts: the
/// position immediately after the `k`-th newline, or the end of `s` when it
/// has fewer than `k` newlines.
pub open spec fn line_start_spec(s: Seq<char>, k: nat) -> nat
    decreases s.len(),
{
    if k == 0 || s.len() == 0 {
        0
    } else if s.first() == '\n' {
        (1 + line_start_spec(s.drop_first(), (k - 1) as nat)) as nat
    } else {
        (1 + line_start_spec(s.drop_first(), k)) as nat
    }
}

/// A line starts at or before the end of the text.
pub proof fn lemma_line_start_le_len(s: Seq<char>, k: nat)
    ensures
        line_start_spec(s, k) <= s.len(),
    decreases s.len(),
{
    if k > 0 && s.len() > 0 {
        if s.first() == '\n' {
            lemma_line_start_le_len(s.drop_first(), (k - 1) as nat);
        } else {
            lemma_line_start_le_len(s.drop_first(), k);
        }
    }
}

/// Asking for a line past the text's newlines resolves to the end of the
/// text rather than failing: a documented edge case, not an error.
pub proof fn lemma_line_start_past_end(s: Seq<char>, k: nat)
    requires
        k > nl_count(s),
    ensures
        line_start_spec(s, k) == s.len(),
    decreases s.len(),
{
    if s.len() > 0 {
        if s.first() == '\n' {
            lemma_line_start_past_end(s.drop_first(), (k - 1) as nat);
        } else {
            lemma_line_start_past_end(s.drop_first(), k);
        }
    }
}

/// A later line never starts earlier.
pub proof fn lemma_line_start_monotone(s: Seq<char>, k1: nat, k2: nat)
    requires
        k1 <= k2,
    ensures
        line_start_spec(s, k1) <= line_start_spec(s, k2),
    decreases s.len(),
{
    if k1 > 0 && s.len() > 0 {
        if s.first() == '\n' {
            lemma_line_start_monotone(s.drop_first(), (k1 - 1) as nat, (k2 - 1) as nat);
        } else {
            lemma_line_start_monotone(s.drop_first(), k1, k2);
        }
    }
}

/// A line that lies within the left part of a concatenation starts where it
/// starts in the left part alone.
proof fn lemma_line_start_concat_left(l: Seq<char>, r: Seq<char>, k: nat)
    requires
        k <= nl_count(l),
    ensures
        line_start_spec(l + r, k) == line_start_spec(l, k),
    decreases l.len(),
{
    if k > 0 && l.len() > 0 {
        assert((l + r).drop_first() =~= l.drop_first() + r);
        if l.first() == '\n' {
            lemma_line_start_concat_left(l.drop_first(), r, (k - 1) as nat);
        } else {
            lemma_line_start_concat_left(l.drop_first(), r, k);
        }
    }
}

/// A line that lies past the left part of a concatenation starts at the left
/// part's length plus where the remaining line starts in the right part.
proof fn lemma_line_start_concat_right(l: Seq<char>, r: Seq<char>, k: nat)
    requires
        k > nl_count(l),
    ensures
        line_start_spec(l + r, k) == l.len() + line_start_spec(r, (k - nl_count(l)) as nat),
    decreases l.len(),
{
    if l.len() == 0 {
        assert(l + r =~= r);
    } else {
        assert((l + r).drop_first() =~= l.drop_first() + r);
        if l.first() == '\n' {
            lemma_line_start_concat_right(l.drop_first(), r, (k - 1) as nat);
        } else {
            lemma_line_start_concat_right(l.drop_first(), r, k);
        }
    }
}

/// Scan a leaf's characters, counting newlines, until the requested line's
/// boundary is reached; scanning off the end returns the position one past
/// the last character.
fn nth_line_idx(s: &RcString, lnum: usize) -> (r: usize)
    ensures
        r == line_start_spec(s@, lnum as nat),
{
    let slen = s.len();
    let mut i: usize = 0;
    let mut n: usize = lnum;
    proof {
        assert(s@.skip(0) =~= s@);
    }
    while i < slen
        invariant
            i <= slen,
            slen == s@.len(),
            n <= lnum,
            line_start_spec(s@, lnum as nat) == i + line_start_spec(s@.skip(i as int), n as nat),
        decreases slen - i,
    {
        if n == 0 {
            return i;
        }
        proof {
            assert(s@.skip(i as int).drop_first() =~= s@.skip(i + 1));
            assert(s@.skip(i as int).first() == s@[i as int]);
        }
        if s.char_at(i) == '\n' {
            n = n - 1;
        }
        i = i + 1;
    }
    proof {
        assert(s@.skip(slen as int) =~= Seq::<char>::empty());
    }
    i
}

/// The character offset of the start of a line range, over the whole text.
pub open spec fn line_slice_start(s: Seq<char>, b: Bound) -> int {
    match b {
        Bound::Included(x) => line_start_spec(s, x as nat) as int,
        Bound::Excluded(x) => line_start_spec(s, (x + 1) as nat) as int,
        Bound::Unbounded => 0,
    }
}

/// The character offset where a line range stops: at the start of line `x`
/// for a bounded end (closed and open ends resolve alike, the contract this
/// operation has always had), or the end of the text for an unbounded one.
pub open spec fn line_slice_end(s: Seq<char>, b: Bound) -> int {
    match b {
        Bound::Included(x) => line_start_spec(s, x as nat) as int,
        Bound::Excluded(x) => line_start_spec(s, x as nat) as int,
        Bound::Unbounded => s.len() as int,
    }
}

/// A line range request is well formed when its end line does not precede
/// its start line and an excluded start stays within machine limits.
pub open spec fn line_range_ok(start_b: Bound, end_b: Bound) -> bool {
    &&& match start_b {
        Bound::Excluded(x) => x < usize::MAX,
        _ => true,
    }
    &&& match end_b {
        Bound::Included(x) => start_of(start_b) <= x,
        Bound::Excluded(x) => start_of(start_b) <= x,
        Bound::Unbounded => true,
    }
}

impl Rope {
    /// The character offset of the first character of 0-based line `lnum`;
    /// one past the end of the text when there are fewer lines. Descends
    /// into the left subtree while the cached newline count allows, else
    /// into the right subtree with an adjusted line number.
    pub fn line_start(&self, lnum: usize) -> (r: usize)
        ensures
            r == line_start_spec(self@, lnum as nat),
            r <= self@.len(),
            lnum == 0 ==> r == 0,
            lnum > nl_count(self@) ==> r == self@.len(),
        decreases *self,
    {
        proof {
            if lnum > nl_count(self@) {
                lemma_line_start_past_end(self@, lnum as nat);
            }
        }
        match self {
            Rope::Leaf(rcs) => {
                proof {
                    lemma_line_start_le_len(rcs@, lnum as nat);
                }
                nth_line_idx(rcs, lnum)
            },
            Rope::Node(nd) => {
                proof {
                    use_type_invariant(&(**nd));
                }
                if lnum <= nd.leftnnl {
                    let r = nd.left.line_start(lnum);
                    proof {
                        lemma_line_start_concat_left(
                            nd.left.content(),
                            nd.right.content(),
                            lnum as nat,
                        );
                    }
                    r
                } else {
                    let r0 = nd.right.line_start(lnum - nd.leftnnl);
                    proof {
                        lemma_line_start_concat_right(
                            nd.left.content(),
                            nd.right.content(),
                            lnum as nat,
                        );
                    }
                    r0 + nd.leftn
                }
            },
        }
    }

    /// The sub-tree covering `n` whole lines starting at line `idx`.
    pub fn line_substr(&self, idx: usize, n: usize) -> (r: Self)
        requires
            idx + n <= usize::MAX,
        ensures
            r@ == self@.subrange(
                line_start_spec(self@, idx as nat) as int,
                line_start_spec(self@, (idx + n) as nat) as int,
            ),
    {
        self.line_slice(Bound::Included(idx), Bound::Excluded(idx + n))
    }

    /// The sub-tree covering a range of whole lines: the characters from
    /// where the first requested line starts to where the end line starts.
    /// Open ends resolve to the beginning or to the end of the text.
    pub fn line_slice(&self, start_b: Bound, end_b: Bound) -> (r: Self)
        requires
            line_range_ok(start_b, end_b),
        ensures
            r@ == self@.subrange(
                line_slice_start(self@, start_b),
                line_slice_end(self@, end_b),
            ),
    {
        let start: usize = match start_b {
            Bound::Included(b) => self.line_start(b),
            Bound::Excluded(b) => self.line_start(b + 1),
            Bound::Unbounded => 0,
        };
        let end: usize = match end_b {
            Bound::Included(b) => self.line_start(b),
            Bound::Excluded(b) => self.line_start(b),
            Bound::Unbounded => self.len(),
        };
        proof {
            match start_b {
                Bound::Included(a) => {
                    match end_b {
                        Bound::Included(b) => {
                            lemma_line_start_monotone(self@, a as nat, b as nat);
                        },
                        Bound::Excluded(b) => {
                            lemma_line_start_monotone(self@, a as nat, b as nat);
                        },
                        Bound::Unbounded => {
                            lemma_line_start_le_len(self@, a as nat);
                        },
                    }
                },
                Bound::Excluded(a) => {
                    match end_b {
                        Bound::Included(b) => {
                            lemma_line_start_monotone(self@, (a + 1) as nat, b as nat);
                        },
                        Bound::Excluded(b) => {
                            lemma_line_start_monotone(self@, (a + 1) as nat, b as nat);
                        },
                        Bound::Unbounded => {
                            lemma_line_start_le_len(self@, (a + 1) as nat);
                        },
                    }
                },
                Bound::Unbounded => {},
            }
        }
        let r = self.char_substr(start, end - start);
        proof {
            assert(r@ =~= self@.subrange(
                line_slice_start(self@, start_b),
                line_slice_end(self@, end_b),
            ));
        }
        r
    }
}

/// What a leaf produces during traversal: a strategy injected into the one
/// stack-driven walker, so the walk is written once. Each produced item has
/// a ghost model, and a leaf's characters determine the models it yields.
pub trait LeafIter: Sized {
    type Item;

    type Model;

    /// The ghost model of one produced item.
    spec fn model_of(item: &Self::Item) -> Self::Model;

    /// The models a leaf with characters `s` produces, in order.
    spec fn items_of(s: Seq<char>) -> Seq<Self::Model>;

    /// The models this sub-iterator has yet to produce.
    spec fn remaining(&self) -> Seq<Self::Model>;

    /// Start producing from the given leaf slice.
    fn from_leaf(s: &RcString) -> (it: Self)
        ensures
            it.remaining() == Self::items_of(s@),
    ;

    /// Produce the next item, or report exhaustion.
    fn next(&mut self) -> (r: Option<Self::Item>)
        ensures
            match r {
                Some(item) => {
                    &&& old(self).remaining().len() > 0
                    &&& Self::model_of(&item) == old(self).remaining()[0]
                    &&& final(self).remaining() == old(self).remaining().drop_first()
                },
                None => {
                    &&& old(self).remaining().len() == 0
                    &&& final(self).remaining().len() == 0
                },
            },
    ;
}

/// The models that a whole subtree produces, leaves left to right.
pub closed spec fn rope_items<T: LeafIter>(r: &Rope) -> Seq<T::Model>
    decreases r,
{
    match r {
        Rope::Leaf(s) => T::items_of(s@),
        Rope::Node(nd) => rope_items::<T>(&nd.left) + rope_items::<T>(&nd.right),
    }
}

/// The models still pending on a traversal stack, top of stack first.
spec fn stack_items<T: LeafIter>(st: Seq<Rope>) -> Seq<T::Model>
    decreases st.len(),
{
    if st.len() == 0 {
        Seq::empty()
    } else {
        rope_items::<T>(&st.last()) + stack_items::<T>(st.drop_last())
    }
}

/// The number of tree cells in a rope, for termination of the walk.
spec fn rope_size(r: Rope) -> nat
    decreases r,
{
    match r {
        Rope::Leaf(_) => 1,
        Rope::Node(nd) => 1 + rope_size(nd.left) + rope_size(nd.right),
    }
}

/// The total number of tree cells pending on a traversal stack.
spec fn stack_size(st: Seq<Rope>) -> nat
    decreases st.len(),
{
    if st.len() == 0 {
        0
    } else {
        rope_size(st.last()) + stack_size(st.drop_last())
    }
}

/// An in-order, depth-first flattening of a rope: a stack of pending
/// subtrees plus the sub-iterator over the most recently reached leaf.
/// The rope itself is never consumed or mutated; a fresh iterator can be
/// made from it at any time.
pub struct RopeIter<T: LeafIter> {
    stack: Vec<Rope>,
    curriter: Option<T>,
}

impl<T: LeafIter> RopeIter<T> {
    /// The models this traversal has yet to produce.
    pub closed spec fn remaining(&self) -> Seq<T::Model> {
        (match self.curriter {
            Some(it) => it.remaining(),
            None => Seq::empty(),
        }) + stack_items::<T>(self.stack@)
    }

    /// Produce the next item of the flattening: finish the current leaf,
    /// then descend left-before-right into the next pending subtree.
    pub fn next(&mut self) -> (r: Option<T::Item>)
        ensures
            match r {
                Some(item) => {
                    &&& old(self).remaining().len() > 0
                    &&& T::model_of(&item) == old(self).remaining()[0]
                    &&& final(self).remaining() == old(self).remaining().drop_first()
                },
                None => {
                    &&& old(self).remaining().len() == 0
                    &&& final(self).remaining().len() == 0
                },
            },
    {
        loop
            invariant
                self.remaining() == old(self).remaining(),
            decreases stack_size(self.stack@),
        {
            let cur = self.curriter.take();
            if let Some(mut it) = cur {
                let ghost pre = it.remaining();
                let r = it.next();
                if r.is_some() {
                    proof {
                        assert((pre + stack_items::<T>(self.stack@)).drop_first() =~= pre
                            .drop_first() + stack_items::<T>(self.stack@));
                    }
                    self.curriter = Some(it);
                    return r;
                }
                proof {
                    assert(pre + stack_items::<T>(self.stack@) =~= stack_items::<T>(self.stack@));
                }
            }
            let ghost pre_pop = self.stack@;
            match self.stack.pop() {
                None => {
                    return None;
                },
                Some(cur) => {
                    proof {
                        assert(pre_pop.last() == cur);
                        assert(pre_pop.drop_last() =~= self.stack@);
                        assert(stack_items::<T>(pre_pop) == rope_items::<T>(&cur) + stack_items::<
                            T,
                        >(self.stack@));
                        assert(stack_size(pre_pop) == rope_size(cur) + stack_size(self.stack@));
                    }
                    match cur {
                        Rope::Node(nd) => {
                            let ghost pre = self.stack@;
                            self.stack.push(nd.right.clone());
                            let ghost mid = self.stack@;
                            self.stack.push(nd.left.clone());
                            proof {
                                assert(mid.last() == nd.right);
                                assert(mid.drop_last() =~= pre);
                                assert(self.stack@.last() == nd.left);
                                assert(self.stack@.drop_last() =~= mid);
                                assert(stack_items::<T>(mid) == rope_items::<T>(&nd.right)
                                    + stack_items::<T>(pre));
                                assert(stack_items::<T>(self.stack@) == rope_items::<T>(&nd.left)
                                    + stack_items::<T>(mid));
                                assert(rope_items::<T>(&nd.left) + (rope_items::<T>(&nd.right)
                                    + stack_items::<T>(pre)) =~= (rope_items::<T>(&nd.left)
                                    + rope_items::<T>(&nd.right)) + stack_items::<T>(pre));
                                assert(Seq::<T::Model>::empty() + stack_items::<T>(self.stack@)
                                    =~= stack_items::<T>(self.stack@));
                                assert(stack_size(mid) == rope_size(nd.right) + stack_size(pre));
                                assert(stack_size(self.stack@) == rope_size(nd.left) + stack_size(
                                    mid,
                                ));
                            }
                        },
                        Rope::Leaf(l) => {
                            self.curriter = Some(T::from_leaf(&l));
                        },
                    }
                },
            }
        }
    }
}

/// A per-leaf sub-iterator producing the leaf's characters one at a time.
pub struct CharIter {
    s: RcString,
    pos: usize,
}

impl CharIter {
    /// The cursor never runs past the leaf's end.
    #[verifier::type_invariant]
    spec fn inv(self) -> bool {
        self.pos <= self.s@.len()
    }
}

impl LeafIter for CharIter {
    type Item = char;

    type Model = char;

    open spec fn model_of(item: &char) -> char {
        *item
    }

    open spec fn items_of(s: Seq<char>) -> Seq<char> {
        s
    }

    closed spec fn remaining(&self) -> Seq<char> {
        self.s@.skip(self.pos as int)
    }

    fn from_leaf(s: &RcString) -> (it: Self) {
        let it = CharIter { s: s.clone(), pos: 0 };
        proof {
            assert(it.remaining() =~= s@);
        }
        it
    }

    fn next(&mut self) -> (r: Option<char>) {
        proof {
            use_type_invariant(&*self);
        }
        if self.pos < self.s.len() {
            let c = self.s.char_at(self.pos);
            self.pos = self.pos + 1;
            proof {
                assert(self.remaining() =~= old(self).remaining().drop_first());
            }
            Some(c)
        } else {
            proof {
                assert(self.remaining() =~= Seq::<char>::empty());
            }
            None
        }
    }
}

/// A per-leaf sub-iterator producing the leaf's whole text as one run.
pub struct StrIter {
    s: Option<RcString>,
}

impl LeafIter for StrIter {
    type Item = String;

    type Model = Seq<char>;

    open spec fn model_of(item: &String) -> Seq<char> {
        item@
    }

    open spec fn items_of(s: Seq<char>) -> Seq<Seq<char>> {
        seq![s]
    }

    closed spec fn remaining(&self) -> Seq<Seq<char>> {
        match self.s {
            Some(rcs) => seq![rcs@],
            None => Seq::empty(),
        }
    }

    fn from_leaf(s: &RcString) -> (it: Self) {
        StrIter { s: Some(s.clone()) }
    }

    fn next(&mut self) -> (r: Option<String>) {
        let cur = self.s.take();
        match cur {
            Some(rcs) => {
                proof {
                    assert(seq![rcs@].drop_first() =~= Seq::<Seq<char>>::empty());
                }
                Some(rcs.str())
            },
            None => None,
        }
    }
}

/// The character models of a subtree are exactly its characters.
pub proof fn lemma_rope_char_items(r: &Rope)
    ensures
        rope_items::<CharIter>(r) == r.content(),
    decreases r,
{
    match r {
        Rope::Leaf(_) => {},
        Rope::Node(nd) => {
            lemma_rope_char_items(&nd.left);
            lemma_rope_char_items(&nd.right);
        },
    }
}

/// The string runs of a subtree, concatenated, are exactly its characters.
pub proof fn lemma_rope_runs_flatten(r: &Rope)
    ensures
        rope_items::<StrIter>(r).flatten() == r.content(),
    decreases r,
{
    match r {
        Rope::Leaf(s) => {
            let single = seq![s@];
            assert(single.drop_first() =~= Seq::<Seq<char>>::empty());
            assert(Seq::<Seq<char>>::empty().flatten() == Seq::<char>::empty());
            assert(single.flatten() =~= s@);
        },
        Rope::Node(nd) => {
            lemma_rope_runs_flatten(&nd.left);
            lemma_rope_runs_flatten(&nd.right);
            let la = rope_items::<StrIter>(&nd.left);
            let ra = rope_items::<StrIter>(&nd.right);
            vstd::seq_lib::lemma_flatten_concat(la, ra);
        },
    }
}

impl Rope {
    /// A fresh character iterator over the whole tree, in order; the tree
    /// itself is not consumed.
    pub fn char_iter(&self) -> (it: RopeIter<CharIter>)
        ensures
            it.remaining() == self@,
    {
        let mut stack: Vec<Rope> = Vec::new();
        stack.push(self.clone());
        let it = RopeIter { stack, curriter: None };
        proof {
            assert(it.stack@.last() == *self);
            assert(it.stack@.drop_last() =~= Seq::<Rope>::empty());
            assert(stack_items::<CharIter>(Seq::<Rope>::empty()) == Seq::<char>::empty());
            lemma_rope_char_items(self);
            assert(it.remaining() =~= self@);
        }
        it
    }

    /// A fresh iterator over the tree's leaf texts as string runs, left to
    /// right; the runs concatenate to the whole text.
    pub fn str_iter(&self) -> (it: RopeIter<StrIter>)
        ensures
            it.remaining() == rope_items::<StrIter>(self),
            it.remaining().flatten() == self@,
    {
        let mut stack: Vec<Rope> = Vec::new();
        stack.push(self.clone());
        let it = RopeIter { stack, curriter: None };
        proof {
            assert(it.stack@.last() == *self);
            assert(it.stack@.drop_last() =~= Seq::<Rope>::empty());
            assert(stack_items::<StrIter>(Seq::<Rope>::empty()) == Seq::<Seq<char>>::empty());
            lemma_rope_runs_flatten(self);
            assert(it.remaining() =~= rope_items::<StrIter>(self));
        }
        it
    }

    /// A fresh line iterator over the tree; see [`LineIter`] for its exact
    /// stopping rule.
    pub fn line_iter(&self) -> (it: LineIter)
        ensures
            it@ == self@,
    {
        LineIter::from(self.clone())
    }
}

/// A lazy line cutter: repeatedly takes line 0 of the remaining tree, then
/// re-slices the remainder to drop that line. A line is yielded only when
/// text remains after it, so iteration deliberately stops one line early
/// rather than yielding a final line with nothing after it.
pub struct LineIter {
    slice: Rope,
}

impl View for LineIter {
    type V = Seq<char>;

    closed spec fn view(&self) -> Seq<char> {
        self.slice@
    }
}

impl LineIter {
    /// Start cutting lines off (a shared handle to) the given tree.
    pub fn from(rope: Rope) -> (it: Self)
        ensures
            it@ == rope@,
    {
        LineIter { slice: rope }
    }

    /// Cut line 0 off the remainder and yield it, unless nothing would
    /// remain after it.
    pub fn next(&mut self) -> (r: Option<Rope>)
        ensures
            ({
                let cut = line_start_spec(old(self)@, 1) as int;
                &&& final(self)@ == old(self)@.skip(cut)
                &&& match r {
                    Some(line) => final(self)@.len() > 0 && line@ == old(self)@.take(cut),
                    None => final(self)@.len() == 0,
                }
            }),
    {
        let line = self.slice.line_slice(Bound::Included(0), Bound::Excluded(1));
        let rest = self.slice.line_slice(Bound::Included(1), Bound::Unbounded);
        proof {
            assert(line@ =~= self.slice@.take(line_start_spec(self.slice@, 1) as int));
            assert(rest@ =~= self.slice@.skip(line_start_spec(self.slice@, 1) as int));
        }
        self.slice = rest;
        if self.slice.len() == 0 {
            None
        } else {
            Some(line)
        }
    }
}

impl View for Rope {
    type V = Seq<char>;

    closed spec fn view(&self) -> Seq<char> {
        self.content()
    }
}

impl Rope {
    /// Content equality against a raw text value: true iff the tree's
    /// characters are exactly those of `s`.
    pub fn eq_str(&self, s: &str) -> (r: bool)
        ensures
            r == (self@ == s@),
    {
        let t = RcString::new(s);
        let n = self.len();
        if n != t.len() {
            return false;
        }
        let mut ia = self.char_iter();
        let mut i: usize = 0;
        proof {
            assert(self@.skip(0) =~= self@);
        }
        while i < n
            invariant
                i <= n,
                n == self@.len(),
                n == t@.len(),
                t@ == s@,
                ia.remaining() == self@.skip(i as int),
                forall|j: int| 0 <= j < i ==> self@[j] == t@[j],
            decreases n - i,
        {
            proof {
                assert(self@.skip(i as int)[0] == self@[i as int]);
                assert(self@.skip(i as int).drop_first() =~= self@.skip(i + 1));
            }
            match ia.next() {
                Some(x) => {
                    if x != t.char_at(i) {
                        proof {
                            assert(self@[i as int] != t@[i as int]);
                        }
                        return false;
                    }
                },
                None => {
                    proof {
                        assert(false);
                    }
                    return false;
                },
            }
            i = i + 1;
        }
        proof {
            assert(self@ =~= s@);
        }
        true
    }
}

impl PartialEq for Rope {
    /// Two ropes are equal iff their character sequences are equal: same
    /// length and same characters in order, whatever the tree shapes.
    fn eq(&self, other: &Self) -> (r: bool) {
        let n = self.len();
        if n != other.len() {
            return false;
        }
        let mut ia = self.char_iter();
        let mut ib = other.char_iter();
        let mut i: usize = 0;
        proof {
            assert(self@.skip(0) =~= self@);
            assert(other@.skip(0) =~= other@);
        }
        while i < n
            invariant
                i <= n,
                n == self@.len(),
                n == other@.len(),
                ia.remaining() == self@.skip(i as int),
                ib.remaining() == other@.skip(i as int),
                forall|j: int| 0 <= j < i ==> self@[j] == other@[j],
            decreases n - i,
        {
            proof {
                assert(self@.skip(i as int)[0] == self@[i as int]);
                assert(other@.skip(i as int)[0] == other@[i as int]);
                assert(self@.skip(i as int).drop_first() =~= self@.skip(i + 1));
                assert(other@.skip(i as int).drop_first() =~= other@.skip(i + 1));
            }
            let ca = ia.next();
            let cb = ib.next();
            match (ca, cb) {
                (Some(x), Some(y)) => {
                    if x != y {
                        proof {
                            assert(self@[i as int] != other@[i as int]);
                        }
                        return false;
                    }
                },
                _ => {
                    proof {
                        assert(false);
                    }
                    return false;
                },
            }
            i = i + 1;
        }
        proof {
            assert(self@ =~= other@);
        }
        true
    }
}

impl vstd::std_specs::cmp::PartialEqSpecImpl for Rope {
    open spec fn obeys_eq_spec() -> bool {
        true
    }

    open spec fn eq_spec(&self, other: &Self) -> bool {
        self@ == other@
    }
}

impl Clone for Rope {
    /// A clone shares the original's nodes and leaves outright; no text and
    /// no tree structure is copied.
    fn clone(&self) -> (r: Self)
        ensures
            r == *self,
    {
        match self {
            Rope::Node(nd) => Rope::Node(Rc::clone(nd)),
            Rope::Leaf(s) => Rope::Leaf(s.clone()),
        }
    }
}

} // verus!
