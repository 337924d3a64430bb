//! Char-index and selection arithmetic for text fields.
//!
//! A caret and a selection anchor are counted in *characters*, not bytes, so
//! they never land inside a UTF-8 sequence. The functions here are shared by
//! painting and by editing, so both agree on what string is on screen and on
//! what a given index means.

use vstd::prelude::*;
use vstd::string::*;
use vstd::utf8::encode_utf8;
use crate::text::{
    chars_of, lemma_encode_concat, lemma_encode_one, lemma_next_sep, line_start_of, newlines,
    next_sep, pieces, pieces_from, split, utf8_width,
};

verus! {

/// `i`, or the end of the text if `i` lies beyond it.
pub open spec fn clamp(i: int, len: int) -> int {
    if i < len {
        i
    } else {
        len
    }
}

/// The byte offset of character `char_idx` of `s`; the length of `s` if there
/// is no such character.
pub fn char_to_byte(s: &str, char_idx: usize) -> (r: usize)
    ensures
        r == encode_utf8(s@.take(clamp(char_idx as int, s@.len() as int))).len(),
{
    let cs: Vec<char> = chars_of(s);
    let total: usize = s.as_bytes().len();
    let mut at: usize = 0;
    let mut i: usize = 0;
    assert(s@.take(0) =~= Seq::<char>::empty());
    while i < cs.len() && i < char_idx
        invariant
            0 <= i <= cs@.len(),
            i <= char_idx,
            cs@ == s@,
            total == encode_utf8(s@).len(),
            at == encode_utf8(s@.take(i as int)).len(),
        decreases cs@.len() - i,
    {
        proof {
            let a = s@.take(i as int);
            let c = s@[i as int];
            assert(s@.take(i + 1) =~= a + seq![c]);
            lemma_encode_concat(a, seq![c]);
            lemma_encode_one(c);
            lemma_encode_concat(s@.take(i + 1), s@.skip(i + 1));
            assert(s@.take(i + 1) + s@.skip(i + 1) =~= s@);
        }
        at = at + utf8_width(cs[i]);
        i = i + 1;
    }
    at
}

/// How many characters `s` has.
pub fn char_len(s: &str) -> (r: usize)
    ensures
        r == s@.len(),
{
    s.unicode_len()
}

/// `text` put into `s` at position `at` (clamped to the end).
pub open spec fn splice(s: Seq<char>, at: int, text: Seq<char>) -> Seq<char> {
    s.take(clamp(at, s.len() as int)) + text + s.skip(clamp(at, s.len() as int))
}

/// What a text field shows: its value with the input method's preview put in
/// at the caret; a masked field shows one `*` per character of that.
pub open spec fn shown_text(label: Seq<char>, cursor: int, preview: Seq<char>, masked: bool) -> Seq<
    char,
> {
    let s = splice(label, cursor, preview);
    if masked {
        Seq::new(s.len(), |i: int| '*')
    } else {
        s
    }
}

/// The string actually shown in a text field.
pub fn display_string(label: &str, cursor: usize, ime_preview: &str, masked: bool) -> (r: String)
    ensures
        r@ == shown_text(label@, cursor as int, ime_preview@, masked),
{
    let len: usize = char_len(label);
    let at: usize = if cursor < len {
        cursor
    } else {
        len
    };
    let mut shown: String = String::new();
    shown.append(label.substring_char(0, at));
    shown.append(ime_preview);
    shown.append(label.substring_char(at, len));
    assert(shown@ =~= splice(label@, cursor as int, ime_preview@));
    if masked {
        let n: usize = char_len(shown.as_str());
        let mut stars: String = String::new();
        let mut i: usize = 0;
        while i < n
            invariant
                0 <= i <= n,
                stars@ =~= Seq::new(i as nat, |k: int| '*'),
            decreases n - i,
        {
            stars.push('*');
            i = i + 1;
        }
        stars
    } else {
        shown
    }
}

/// The hard line (0-based, split on `\n` only) that position `cursor` of `cs`
/// falls on, and its offset within that line.
pub open spec fn line_col(cs: Seq<char>, cursor: int) -> (int, int) {
    let p = clamp(cursor, cs.len() as int);
    (newlines(cs.take(p)) as int, p - line_start_of(cs, p))
}

/// The hard line `cursor` falls on, and its char offset within that line.
pub fn line_and_col(shown: &str, cursor: usize) -> (r: (usize, usize))
    ensures
        (r.0 as int, r.1 as int) == line_col(shown@, cursor as int),
{
    let cs: Vec<char> = chars_of(shown);
    let p: usize = if cursor < cs.len() {
        cursor
    } else {
        cs.len()
    };
    let mut line: usize = 0;
    let mut start: usize = 0;
    let mut i: usize = 0;
    assert(cs@.take(0) =~= Seq::<char>::empty());
    while i < p
        invariant
            0 <= i <= p <= cs@.len(),
            cs@ == shown@,
            0 <= start <= i,
            line <= i,
            line == newlines(cs@.take(i as int)),
            start == line_start_of(cs@, i as int),
        decreases p - i,
    {
        proof {
            assert(cs@.take(i + 1).drop_last() =~= cs@.take(i as int));
            assert(cs@.take(i + 1).last() == cs@[i as int]);
        }
        if cs[i] == '\n' {
            line = line + 1;
            start = i + 1;
        }
        i = i + 1;
    }
    (line, p - start)
}

/// The hard lines of a text.
pub open spec fn lines_of(cs: Seq<char>) -> Seq<Seq<char>> {
    pieces(cs, '\n')
}

/// `shown`'s individual hard lines, split on `\n`.
pub fn hard_lines(shown: &str) -> (r: Vec<&str>)
    ensures
        r@.map_values(|p: &str| p@) == lines_of(shown@),
        r@.len() > 0,
{
    split(shown, '\n')
}

/// How many characters the first `n` of `lines` take, line breaks counted.
pub open spec fn chars_before(lines: Seq<Seq<char>>, n: int) -> int
    decreases n,
{
    if n <= 0 {
        0
    } else {
        chars_before(lines, n - 1) + lines[n - 1].len() + 1
    }
}

/// The position of column `col` on hard line `line`, both clamped.
pub open spec fn index_at(cs: Seq<char>, line: int, col: int) -> int {
    let lines = lines_of(cs);
    let l = clamp(line, lines.len() - 1);
    chars_before(lines, l) + clamp(col, lines[l].len() as int)
}

/// The char index for a hard line and a column within it: the inverse of
/// [`line_and_col`]. A line beyond the last is the last line; a column beyond
/// its line's end is the end.
pub fn char_index_at(shown: &str, line: usize, col: usize) -> (r: usize)
    ensures
        r as int == index_at(shown@, line as int, col as int),
{
    let n: usize = char_len(shown);
    let lines: Vec<&str> = hard_lines(shown);
    let ghost model = lines_of(shown@);
    proof {
        lemma_lines_total(shown@, 0);
    }
    let last: usize = lines.len() - 1;
    let l: usize = if line < last {
        line
    } else {
        last
    };
    let mut idx: usize = 0;
    let mut k: usize = 0;
    while k < l
        invariant
            0 <= k <= l < lines@.len(),
            lines@.map_values(|p: &str| p@) == model,
            chars_before(model, lines@.len() as int) == n + 1,
            idx as int == chars_before(model, k as int),
        decreases l - k,
    {
        proof {
            assert(model[k as int] == lines@[k as int]@);
            lemma_chars_before_grows(model, k + 1, lines@.len() as int);
        }
        idx = idx + (char_len(lines[k]) + 1);
        k = k + 1;
    }
    let here: usize = char_len(lines[l]);
    proof {
        assert(model[l as int] == lines@[l as int]@);
        lemma_chars_before_grows(model, l + 1, lines@.len() as int);
    }
    idx + if col < here {
        col
    } else {
        here
    }
}

proof fn lemma_chars_before_grows(lines: Seq<Seq<char>>, a: int, b: int)
    requires
        0 <= a <= b <= lines.len(),
    ensures
        0 <= chars_before(lines, a),
        chars_before(lines, a) + (b - a) <= chars_before(lines, b),
    decreases b,
{
    if a < b {
        lemma_chars_before_grows(lines, a, b - 1);
    } else if a > 0 {
        lemma_chars_before_grows(lines, a - 1, a - 1);
    }
}

/// `chars_before` of a list with one line put in front.
proof fn lemma_chars_before_cons(first: Seq<char>, rest: Seq<Seq<char>>, n: int)
    requires
        0 <= n <= rest.len(),
    ensures
        chars_before(seq![first] + rest, n + 1) == first.len() + 1 + chars_before(rest, n),
    decreases n,
{
    let all = seq![first] + rest;
    if n > 0 {
        lemma_chars_before_cons(first, rest, n - 1);
        assert(all[n] == rest[n - 1]);
    } else {
        assert(chars_before(all, 0) == 0);
        assert(all[0] == first);
    }
}

/// The hard lines from `i` on, with their line breaks, cover the text from `i` on.
proof fn lemma_lines_total(cs: Seq<char>, i: int)
    requires
        0 <= i <= cs.len(),
    ensures
        pieces_from(cs, i, '\n').len() > 0,
        chars_before(pieces_from(cs, i, '\n'), pieces_from(cs, i, '\n').len() as int) == cs.len()
            - i + 1,
    decreases cs.len() - i,
{
    lemma_next_sep(cs, i, '\n');
    let e = next_sep(cs, i, '\n');
    let ps = pieces_from(cs, i, '\n');
    if e < cs.len() {
        lemma_lines_total(cs, e + 1);
        let rest = pieces_from(cs, e + 1, '\n');
        lemma_chars_before_cons(cs.subrange(i, e), rest, rest.len() as int);
    } else {
        assert(chars_before(ps, 0) == 0);
        assert(ps[0].len() == e - i);
        assert(chars_before(ps, 1) == e - i + 1);
    }
}

/// Counting lines from a line's start: within that line, and beyond it.
proof fn lemma_newlines_split(cs: Seq<char>, i: int, e: int, p: int)
    requires
        0 <= i <= e <= p <= cs.len(),
    ensures
        newlines(cs.subrange(i, p)) == newlines(cs.subrange(i, e)) + newlines(cs.subrange(e, p)),
    decreases p - e,
{
    if e < p {
        lemma_newlines_split(cs, i, e, p - 1);
        assert(cs.subrange(i, p).drop_last() =~= cs.subrange(i, p - 1));
        assert(cs.subrange(e, p).drop_last() =~= cs.subrange(e, p - 1));
        assert(cs.subrange(i, p).last() == cs[p - 1]);
        assert(cs.subrange(e, p).last() == cs[p - 1]);
    } else {
        assert(cs.subrange(e, p) =~= Seq::<char>::empty());
    }
}

proof fn lemma_one_newline(cs: Seq<char>, e: int)
    requires
        0 <= e < cs.len(),
        cs[e] == '\n',
    ensures
        newlines(cs.subrange(e, e + 1)) == 1,
{
    let one = cs.subrange(e, e + 1);
    assert(one.drop_last() =~= Seq::<char>::empty());
    assert(newlines(one.drop_last()) == 0);
    assert(one.last() == '\n');
}

proof fn lemma_no_newlines(cs: Seq<char>, i: int, p: int)
    requires
        0 <= i <= p <= cs.len(),
        forall|k: int| i <= k < p ==> #[trigger] cs[k] != '\n',
    ensures
        newlines(cs.subrange(i, p)) == 0,
        i == 0 || cs[i - 1] == '\n' ==> line_start_of(cs, p) == i,
    decreases p - i,
{
    if i < p {
        lemma_no_newlines(cs, i, p - 1);
        assert(cs.subrange(i, p).drop_last() =~= cs.subrange(i, p - 1));
        assert(cs.subrange(i, p).last() == cs[p - 1]);
    }
}

/// Position `p`, at or after the line start `i`, seen in the lines from `i` on:
/// it lies on line number `newlines` between, at its offset from its line's start.
proof fn lemma_position_in_lines(cs: Seq<char>, i: int, p: int)
    requires
        0 <= i <= p <= cs.len(),
        i == 0 || cs[i - 1] == '\n',
    ensures
        ({
            let ps = pieces_from(cs, i, '\n');
            let l = newlines(cs.subrange(i, p)) as int;
            &&& 0 <= l < ps.len()
            &&& chars_before(ps, l) == line_start_of(cs, p) - i
            &&& 0 <= p - line_start_of(cs, p) <= ps[l].len()
        }),
    decreases cs.len() - i,
{
    lemma_next_sep(cs, i, '\n');
    let e = next_sep(cs, i, '\n');
    let ps = pieces_from(cs, i, '\n');
    if p <= e {
        lemma_no_newlines(cs, i, p);
        assert(ps[0] == cs.subrange(i, e));
    } else {
        let rest = pieces_from(cs, e + 1, '\n');
        lemma_position_in_lines(cs, e + 1, p);
        lemma_no_newlines(cs, i, e);
        lemma_newlines_split(cs, i, e, p);
        lemma_newlines_split(cs, e, e + 1, p);
        lemma_one_newline(cs, e);
        let l = newlines(cs.subrange(e + 1, p)) as int;
        lemma_chars_before_cons(cs.subrange(i, e), rest, l);
        assert(ps[l + 1] == rest[l]);
    }
}

/// Column `c` of line `l`, counted from the line start `i`, as a position.
proof fn lemma_lines_position(cs: Seq<char>, i: int, l: int, c: int)
    requires
        0 <= i <= cs.len(),
        i == 0 || cs[i - 1] == '\n',
        0 <= l < pieces_from(cs, i, '\n').len(),
        0 <= c <= pieces_from(cs, i, '\n')[l].len(),
    ensures
        ({
            let p = i + chars_before(pieces_from(cs, i, '\n'), l) + c;
            &&& i <= p <= cs.len()
            &&& newlines(cs.subrange(i, p)) == l
            &&& line_start_of(cs, p) == p - c
        }),
    decreases cs.len() - i,
{
    lemma_next_sep(cs, i, '\n');
    let e = next_sep(cs, i, '\n');
    let ps = pieces_from(cs, i, '\n');
    if l == 0 {
        assert(ps[0] == cs.subrange(i, e));
        lemma_no_newlines(cs, i, i + c);
    } else {
        let rest = pieces_from(cs, e + 1, '\n');
        assert(ps[l] == rest[l - 1]);
        lemma_lines_position(cs, e + 1, l - 1, c);
        lemma_chars_before_cons(cs.subrange(i, e), rest, l - 1);
        let p = i + chars_before(ps, l) + c;
        lemma_no_newlines(cs, i, e);
        lemma_newlines_split(cs, i, e, p);
        lemma_newlines_split(cs, e, e + 1, p);
        lemma_one_newline(cs, e);
    }
}

/// Every position falls on one of the text's hard lines, inside it.
pub proof fn law_line_col_is_inside(cs: Seq<char>, cursor: int)
    requires
        0 <= cursor,
    ensures
        0 <= line_col(cs, cursor).0 < lines_of(cs).len(),
        0 <= line_col(cs, cursor).1 <= lines_of(cs)[line_col(cs, cursor).0].len(),
{
    let p = clamp(cursor, cs.len() as int);
    assert(cs.subrange(0, p) =~= cs.take(p));
    lemma_position_in_lines(cs, 0, p);
}

/// `char_index_at` undoes `line_and_col`, at every position of every text.
pub proof fn law_index_at_inverts_line_col(cs: Seq<char>, cursor: int)
    requires
        0 <= cursor <= cs.len(),
    ensures
        index_at(cs, line_col(cs, cursor).0, line_col(cs, cursor).1) == cursor,
{
    assert(cs.subrange(0, cursor) =~= cs.take(cursor));
    lemma_position_in_lines(cs, 0, cursor);
}

/// `line_and_col` undoes `char_index_at`, at every column of every line.
pub proof fn law_line_col_inverts_index_at(cs: Seq<char>, line: int, col: int)
    requires
        0 <= line < lines_of(cs).len(),
        0 <= col <= lines_of(cs)[line].len(),
    ensures
        line_col(cs, index_at(cs, line, col)) == (line, col),
{
    lemma_lines_position(cs, 0, line, col);
    let p = index_at(cs, line, col);
    assert(cs.subrange(0, p) =~= cs.take(p));
}

/// `(cursor, anchor)` as an ordered `(start, end)` range.
pub open spec fn range_of(cursor: int, anchor: int) -> (int, int) {
    if anchor <= cursor {
        (anchor, cursor)
    } else {
        (cursor, anchor)
    }
}

/// Normalizes `(cursor, anchor)` into an ordered `(start, end)` char range.
pub fn ordered_range(cursor: usize, anchor: usize) -> (r: (usize, usize))
    ensures
        (r.0 as int, r.1 as int) == range_of(cursor as int, anchor as int),
{
    if anchor <= cursor {
        (anchor, cursor)
    } else {
        (cursor, anchor)
    }
}

/// `s` without the characters from `lo` to `hi` (both clamped to the end).
pub open spec fn cut(s: Seq<char>, lo: int, hi: int) -> Seq<char> {
    s.take(clamp(lo, s.len() as int)) + s.skip(clamp(hi, s.len() as int))
}

/// Deletes the selection between `anchor` and the caret from `label`, and moves
/// the caret to its start. Returns `true` if anything was actually removed: an
/// empty selection, or one that lies beyond the end, removes nothing.
pub fn delete_range(label: &mut String, cursor: &mut usize, anchor: usize) -> (r: bool)
    ensures
        final(label)@ == cut(
            old(label)@,
            range_of(*old(cursor) as int, anchor as int).0,
            range_of(*old(cursor) as int, anchor as int).1,
        ),
        *final(cursor) == range_of(*old(cursor) as int, anchor as int).0,
        r == (final(label)@ != old(label)@),
        r == (range_of(*old(cursor) as int, anchor as int).0 < clamp(
            range_of(*old(cursor) as int, anchor as int).1,
            old(label)@.len() as int,
        )),
        !r ==> *final(label) == *old(label),
{
    let (lo, hi) = ordered_range(*cursor, anchor);
    let len: usize = char_len(label.as_str());
    let from: usize = if lo < len {
        lo
    } else {
        len
    };
    let to: usize = if hi < len {
        hi
    } else {
        len
    };
    *cursor = lo;
    if from == to {
        assert(cut(label@, lo as int, hi as int) =~= label@);
        return false;
    }
    let mut out: String = String::new();
    out.append(label.as_str().substring_char(0, from));
    out.append(label.as_str().substring_char(to, len));
    assert(out@ =~= cut(label@, lo as int, hi as int));
    assert(out@.len() < label@.len());
    *label = out;
    true
}

/// Inserts `text` at the caret (at the end, for a caret beyond it), and moves
/// the caret past it.
pub fn insert_str(label: &mut String, cursor: &mut usize, text: &str)
    requires
        *old(cursor) + text@.len() <= usize::MAX,
    ensures
        final(label)@ == splice(old(label)@, *old(cursor) as int, text@),
        *final(cursor) == *old(cursor) + text@.len(),
{
    let len: usize = char_len(label.as_str());
    let at: usize = if *cursor < len {
        *cursor
    } else {
        len
    };
    let mut out: String = String::new();
    out.append(label.as_str().substring_char(0, at));
    out.append(text);
    out.append(label.as_str().substring_char(at, len));
    assert(out@ =~= splice(label@, *cursor as int, text@));
    *label = out;
    *cursor = *cursor + char_len(text);
}

/// Where the caret and the anchor are after a step to `bare` (the caret's
/// next place without a selection): with `shift` the selection starts or grows;
/// without, a selection
/// sends the caret to `collapsed` and ends.
pub open spec fn moved(cursor: int, anchor: Option<usize>, shift: bool, bare: int, collapsed: int) -> (
    int,
    Option<usize>,
) {
    if shift {
        (
            bare,
            if anchor is Some {
                anchor
            } else {
                Some(cursor as usize)
            },
        )
    } else if anchor is Some {
        (collapsed, None)
    } else {
        (bare, None)
    }
}

/// The caret and the anchor after a step to the left.
pub open spec fn moved_left(cursor: int, anchor: Option<usize>, shift: bool) -> (
    int,
    Option<usize>,
) {
    moved(
        cursor,
        anchor,
        shift,
        if cursor > 0 {
            cursor - 1
        } else {
            0
        },
        if anchor is Some {
            range_of(cursor, anchor->0 as int).0
        } else {
            cursor
        },
    )
}

/// The caret and the anchor after a step to the right in a text of `len`
/// characters.
pub open spec fn moved_right(cursor: int, anchor: Option<usize>, shift: bool, len: int) -> (
    int,
    Option<usize>,
) {
    moved(
        cursor,
        anchor,
        shift,
        clamp(cursor + 1, len),
        if anchor is Some {
            range_of(cursor, anchor->0 as int).1
        } else {
            cursor
        },
    )
}

/// Moves the caret one char left. With `shift`, extends or starts a selection
/// at the caret's former place. Without, an existing selection is consumed by
/// collapsing the caret to its start.
pub fn move_left(cursor: &mut usize, selection_anchor: &mut Option<usize>, shift: bool)
    ensures
        (*final(cursor) as int, *final(selection_anchor)) == moved_left(
            *old(cursor) as int,
            *old(selection_anchor),
            shift,
        ),
{
    let at: usize = *cursor;
    let left: usize = if at > 0 {
        at - 1
    } else {
        0
    };
    if shift {
        if selection_anchor.is_none() {
            *selection_anchor = Some(at);
        }
        *cursor = left;
    } else if let Some(anchor) = *selection_anchor {
        *selection_anchor = None;
        *cursor = ordered_range(at, anchor).0;
    } else {
        *cursor = left;
    }
}

/// Mirror of [`move_left`] for the right arrow key; `len` is the char count
/// currently in the field (the caret's upper bound).
pub fn move_right(
    cursor: &mut usize,
    selection_anchor: &mut Option<usize>,
    shift: bool,
    len: usize,
)
    ensures
        (*final(cursor) as int, *final(selection_anchor)) == moved_right(
            *old(cursor) as int,
            *old(selection_anchor),
            shift,
            len as int,
        ),
{
    let at: usize = *cursor;
    let right: usize = if at < len {
        at + 1
    } else {
        len
    };
    if shift {
        if selection_anchor.is_none() {
            *selection_anchor = Some(at);
        }
        *cursor = right;
    } else if let Some(anchor) = *selection_anchor {
        *selection_anchor = None;
        *cursor = ordered_range(at, anchor).1;
    } else {
        *cursor = right;
    }
}

// ---- laws ----

/// Deleting what was just inserted restores the text.
pub proof fn law_delete_undoes_insert(label: Seq<char>, cursor: int, text: Seq<char>)
    requires
        0 <= cursor <= label.len(),
    ensures
        cut(splice(label, cursor, text), cursor, cursor + text.len()) == label,
{
    let s = splice(label, cursor, text);
    assert(s.take(cursor) =~= label.take(cursor));
    assert(s.skip(cursor + text.len()) =~= label.skip(cursor));
    assert(label.take(cursor) + label.skip(cursor) =~= label);
}

/// A text field shows one character per character of its value and preview,
/// masked or not.
pub proof fn law_shown_length(label: Seq<char>, cursor: int, preview: Seq<char>, masked: bool)
    requires
        0 <= cursor,
    ensures
        shown_text(label, cursor, preview, masked).len() == label.len() + preview.len(),
{
}

/// A step right undoes a step left, and the other way round, wherever there is
/// room for the step.
pub proof fn law_moves_are_inverse(cursor: int, len: int)
    requires
        0 <= cursor <= len,
    ensures
        cursor > 0 ==> moved_right(moved_left(cursor, None, false).0, None, false, len) == (
            cursor,
            None::<usize>,
        ),
        cursor < len ==> moved_left(moved_right(cursor, None, false, len).0, None, false) == (
            cursor,
            None::<usize>,
        ),
{
}

/// Steps keep the caret inside the text.
pub proof fn law_moves_stay_inside(cursor: int, anchor: Option<usize>, shift: bool, len: int)
    requires
        0 <= cursor <= len,
        anchor matches Some(a) ==> a <= len,
    ensures
        0 <= moved_left(cursor, anchor, shift).0 <= len,
        0 <= moved_right(cursor, anchor, shift, len).0 <= len,
{
}

} // verus!
