//! Converts a char-index into an editor position: a line number plus a
//! **UTF-16 code-unit** column, which is not a char count wherever the source
//! contains characters outside the Basic Multilingual Plane.

use vstd::prelude::*;
use crate::text::{chars_of, lemma_line_start_prefix, line_start_of, newlines};

verus! {

/// How many UTF-16 code units encode `c`.
pub open spec fn utf16_units(c: char) -> nat {
    if (c as u32) < 0x10000 {
        1
    } else {
        2
    }
}

/// How many UTF-16 code units encode `cs`.
pub open spec fn utf16_len(cs: Seq<char>) -> nat
    decreases cs.len(),
{
    if cs.len() == 0 {
        0
    } else {
        utf16_len(cs.drop_last()) + utf16_units(cs.last())
    }
}

/// `i`, or the end of the text if `i` overruns it.
pub open spec fn clamp_to(cs: Seq<char>, i: int) -> int {
    if i < cs.len() {
        i
    } else {
        cs.len() as int
    }
}

/// Position `i` (clamped to the text) as a line number and a UTF-16 column.
pub open spec fn position_of(cs: Seq<char>, i: int) -> (nat, nat) {
    let p = clamp_to(cs, i);
    (newlines(cs.take(p)), utf16_len(cs.subrange(line_start_of(cs, p), p)))
}

/// The position every line begins at, in order: `0`, then one past each line break.
pub open spec fn line_starts_of(cs: Seq<char>) -> Seq<int>
    decreases cs.len(),
{
    if cs.len() == 0 {
        seq![0int]
    } else {
        let rest = line_starts_of(cs.drop_last());
        if cs.last() == '\n' {
            rest.push(cs.len() as int)
        } else {
            rest
        }
    }
}

/// `line_starts_of` is increasing, starts at 0, stays inside the text, has one
/// entry more than there are line breaks, and its last entry begins the last line.
pub proof fn lemma_line_starts(cs: Seq<char>)
    ensures
        line_starts_of(cs).len() == newlines(cs) + 1,
        line_starts_of(cs)[0] == 0,
        line_starts_of(cs).last() == line_start_of(cs, cs.len() as int),
        forall|k: int|
            0 <= k < line_starts_of(cs).len() ==> 0 <= #[trigger] line_starts_of(cs)[k]
                <= cs.len(),
        forall|k: int, m: int|
            0 <= k < m < line_starts_of(cs).len() ==> #[trigger] line_starts_of(cs)[k]
                < #[trigger] line_starts_of(cs)[m],
    decreases cs.len(),
{
    if cs.len() > 0 {
        let p = cs.drop_last();
        lemma_line_starts(p);
        lemma_line_start_prefix(cs, p.len() as int, p.len() as int);
    }
}

/// The starts of a prefix's lines are the starts, in the whole text, that do
/// not lie beyond the prefix.
pub proof fn lemma_line_starts_prefix(cs: Seq<char>, n: int)
    requires
        0 <= n <= cs.len(),
    ensures
        line_starts_of(cs.take(n)).len() <= line_starts_of(cs).len(),
        line_starts_of(cs.take(n)) == line_starts_of(cs).take(
            line_starts_of(cs.take(n)).len() as int,
        ),
        forall|k: int|
            line_starts_of(cs.take(n)).len() <= k < line_starts_of(cs).len()
                ==> #[trigger] line_starts_of(cs)[k] > n,
    decreases cs.len(),
{
    if n == cs.len() {
        assert(cs.take(n) =~= cs);
        assert(line_starts_of(cs).take(line_starts_of(cs).len() as int) =~= line_starts_of(cs));
    } else {
        let p = cs.drop_last();
        assert(p.take(n) =~= cs.take(n));
        lemma_line_starts_prefix(p, n);
        let m = line_starts_of(cs.take(n)).len() as int;
        assert(line_starts_of(cs).take(m) =~= line_starts_of(p).take(m));
    }
}

/// A source text with the starts of its lines looked up once.
pub struct LineIndex {
    line_starts: Vec<usize>,
    chars: Vec<char>,
}

impl LineIndex {
    /// The text that was indexed.
    pub closed spec fn text(&self) -> Seq<char> {
        self.chars@
    }

    /// The recorded line starts are those of the text.
    #[verifier::type_invariant]
    pub closed spec fn wf(&self) -> bool {
        &&& self.line_starts@.len() == line_starts_of(self.chars@).len()
        &&& forall|k: int|
            0 <= k < self.line_starts@.len() ==> (#[trigger] self.line_starts@[k]) as int
                == line_starts_of(self.chars@)[k]
    }

    /// Indexes `source`.
    pub fn new(source: &str) -> (r: Self)
        ensures
            r.text() == source@,
    {
        let chars: Vec<char> = chars_of(source);
        let mut line_starts: Vec<usize> = Vec::new();
        line_starts.push(0);
        let mut i: usize = 0;
        assert(chars@.take(0) =~= Seq::empty());
        while i < chars.len()
            invariant
                0 <= i <= chars@.len(),
                line_starts@.len() == line_starts_of(chars@.take(i as int)).len(),
                forall|k: int|
                    0 <= k < line_starts@.len() ==> (#[trigger] line_starts@[k]) as int
                        == line_starts_of(chars@.take(i as int))[k],
            decreases chars@.len() - i,
        {
            proof {
                assert(chars@.take(i + 1).drop_last() =~= chars@.take(i as int));
                assert(chars@.take(i + 1).last() == chars@[i as int]);
            }
            if chars[i] == '\n' {
                line_starts.push(i + 1);
            }
            i = i + 1;
        }
        assert(chars@.take(chars@.len() as int) =~= chars@);
        LineIndex { line_starts, chars }
    }

    /// `(line, utf16_character)` for the char at `char_idx`, clamped to the
    /// end of the source if `char_idx` overruns it. Both numbers are taken
    /// modulo 2^32, the width an editor position has.
    pub fn position(&self, char_idx: usize) -> (r: (u32, u32))
        ensures
            r.0 as nat == position_of(self.text(), char_idx as int).0 % 0x1_0000_0000,
            r.1 as nat == position_of(self.text(), char_idx as int).1 % 0x1_0000_0000,
    {
        proof {
            use_type_invariant(self);
        }
        let n: usize = self.chars.len();
        let idx: usize = if char_idx < n {
            char_idx
        } else {
            n
        };
        let ghost cs = self.chars@;
        let ghost starts = line_starts_of(cs);
        proof {
            lemma_line_starts(cs);
            lemma_line_starts(cs.take(idx as int));
            lemma_line_starts_prefix(cs, idx as int);
            lemma_line_start_prefix(cs, idx as int, idx as int);
        }
        let ghost line = newlines(cs.take(idx as int)) as int;
        // The last recorded start that is at or before `idx`.
        let mut lo: usize = 0;
        let mut hi: usize = self.line_starts.len();
        assert(starts.take(line + 1)[line] == starts[line]);
        while hi - lo > 1
            invariant
                cs == self.chars@,
                starts == line_starts_of(cs),
                self.line_starts@.len() == starts.len(),
                forall|k: int|
                    0 <= k < self.line_starts@.len() ==> (#[trigger] self.line_starts@[k]) as int
                        == starts[k],
                0 <= lo <= line < hi <= starts.len(),
                0 <= line < starts.len(),
                starts[line] <= idx,
                forall|k: int, m: int|
                    0 <= k < m < starts.len() ==> #[trigger] starts[k] < #[trigger] starts[m],
                forall|k: int| line < k < starts.len() ==> #[trigger] starts[k] > idx,
            decreases hi - lo,
        {
            let mid: usize = lo + (hi - lo) / 2;
            if self.line_starts[mid] <= idx {
                lo = mid;
            } else {
                hi = mid;
            }
        }
        let line_start: usize = self.line_starts[lo];
        assert(lo == line);
        assert(line_start == line_start_of(cs, idx as int)) by {
            let pre = line_starts_of(cs.take(idx as int));
            assert(pre.last() == pre[line]);
            assert(pre[line] == starts.take(line + 1)[line]);
        }
        let mut col: u32 = 0;
        let mut i: usize = line_start;
        assert(cs.subrange(line_start as int, line_start as int) =~= Seq::<char>::empty());
        while i < idx
            invariant
                cs == self.chars@,
                line_start <= i <= idx <= cs.len(),
                col as nat == utf16_len(cs.subrange(line_start as int, i as int)) % 0x1_0000_0000,
            decreases idx - i,
        {
            let c: char = self.chars[i];
            let units: u32 = if (c as u32) < 0x10000 {
                1
            } else {
                2
            };
            proof {
                let s = cs.subrange(line_start as int, i + 1);
                assert(s.drop_last() =~= cs.subrange(line_start as int, i as int));
                assert(s.last() == c);
            }
            col = col.wrapping_add(units);
            i = i + 1;
        }
        ((lo as u64 % 0x1_0000_0000) as u32, col)
    }
}

// ---- laws ----

/// Positions beyond the end of the text are those of its end.
pub proof fn law_position_clamps(cs: Seq<char>, i: int)
    requires
        i >= cs.len(),
    ensures
        position_of(cs, i) == position_of(cs, cs.len() as int),
{
}

/// The first position is line 0, column 0, and a position right after a line
/// break is column 0 of the next line.
pub proof fn law_line_break_starts_next_line(cs: Seq<char>, i: int)
    requires
        0 <= i < cs.len(),
    ensures
        position_of(cs, 0) == (0nat, 0nat),
        cs[i] == '\n' ==> position_of(cs, i + 1) == (position_of(cs, i).0 + 1, 0nat),
        cs[i] != '\n' ==> position_of(cs, i + 1) == (
            position_of(cs, i).0,
            position_of(cs, i).1 + utf16_units(cs[i]),
        ),
{
    assert(cs.take(0) =~= Seq::<char>::empty());
    assert(cs.subrange(0, 0) =~= Seq::<char>::empty());
    assert(cs.take(i + 1).drop_last() =~= cs.take(i));
    assert(cs.take(i + 1).last() == cs[i]);
    lemma_line_start_prefix(cs, cs.len() as int, i);
    if cs[i] == '\n' {
        assert(cs.subrange(i + 1, i + 1) =~= Seq::<char>::empty());
    } else {
        let a = line_start_of(cs, i);
        assert(line_start_of(cs, i + 1) == a);
        assert(cs.subrange(a, i + 1).drop_last() =~= cs.subrange(a, i));
        assert(cs.subrange(a, i + 1).last() == cs[i]);
    }
}

/// Positions grow with the index: a later character is on a later line, or on
/// the same line at a column no smaller.
pub proof fn law_position_monotonic(cs: Seq<char>, i: int, j: int)
    requires
        0 <= i <= j,
    ensures
        position_of(cs, i).0 <= position_of(cs, j).0,
        position_of(cs, i).0 == position_of(cs, j).0 ==> position_of(cs, i).1 <= position_of(
            cs,
            j,
        ).1,
    decreases j - i,
{
    if i < j {
        law_position_monotonic(cs, i, j - 1);
        if j - 1 < cs.len() {
            law_line_break_starts_next_line(cs, j - 1);
        }
    }
}

} // verus!
