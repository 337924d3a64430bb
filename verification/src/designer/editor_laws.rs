//! What keys do to a text field.

use vstd::prelude::*;
use crate::designer::editor::{edited, typeable, FieldState, Key};

verus! {

/// A field that holds `a`, `s` and `b` in this order, with `s` selected: the caret stands at
/// one end of it and the selection starts at the other. Without a selection, `s` is empty
/// and the caret stands there.
pub open spec fn holds(f: FieldState, a: Seq<char>, s: Seq<char>, b: Seq<char>) -> bool {
    let (from, to) = (a.len() as int, (a.len() + s.len()) as int);
    &&& f.text == a + s + b
    &&& f.text.len() <= usize::MAX
    &&& match f.anchor {
        Some(x) => (f.cursor == from && x == to) || (f.cursor == to && x == from),
        None => f.cursor == from && s.len() == 0,
    }
}

/// A character that types nothing.
pub open spec fn types_nothing(c: char) -> bool {
    (c as u32) < 0x20 || (0x7f <= (c as u32) && (c as u32) <= 0x9f)
}

/// What is typed is the text without control characters.
pub proof fn law_control_characters_are_not_typed(t: Seq<char>)
    ensures
        typeable(t) == t.filter(|c: char| !types_nothing(c)),
    decreases t.len(),
{
    reveal(Seq::filter);
    if t.len() > 0 {
        law_control_characters_are_not_typed(t.drop_last());
    }
}

/// Typing puts the text in place of the selection, and the caret behind it. Text of control
/// characters alone changes nothing.
pub proof fn law_typing_replaces_the_selection(
    f: FieldState,
    a: Seq<char>,
    s: Seq<char>,
    b: Seq<char>,
    multiline: bool,
    key: Key,
    t: Seq<char>,
    shift: bool,
)
    requires
        holds(f, a, s, b),
        key is Char || key == Key::Other,
    ensures
        ({
            let g = edited(f, multiline, key, Some(t), shift).0;
            let typed = t.filter(|c: char| !types_nothing(c));
            if typed.len() > 0 {
                g.text == a + typed + b && g.cursor == a.len() + typed.len() && g.anchor is None
            } else {
                g == f
            }
        }),
{
    law_control_characters_are_not_typed(t);
    let g = edited(f, multiline, key, Some(t), shift).0;
    let typed = t.filter(|c: char| !types_nothing(c));
    if typed.len() > 0 {
        lemma_parts(f, a, s, b);
        assert(g.text =~= a + typed + b);
    }
}

proof fn lemma_parts(f: FieldState, a: Seq<char>, s: Seq<char>, b: Seq<char>)
    requires
        holds(f, a, s, b),
    ensures
        f.text.take(a.len() as int) == a,
        f.text.skip((a.len() + s.len()) as int) == b,
        s.len() == 0 ==> f.text == a + b,
        (a + b).take(a.len() as int) == a,
        (a + b).skip(a.len() as int) == b,
{
    assert(f.text.take(a.len() as int) =~= a);
    assert(f.text.skip((a.len() + s.len()) as int) =~= b);
    assert((a + b).take(a.len() as int) =~= a);
    assert((a + b).skip(a.len() as int) =~= b);
    if s.len() == 0 {
        assert(f.text =~= a + b);
    }
}

/// Enter breaks the line of a field of several lines, in place of the selection; in a field
/// of one line it types nothing by itself.
pub proof fn law_enter_breaks_the_line(
    f: FieldState,
    a: Seq<char>,
    s: Seq<char>,
    b: Seq<char>,
    multiline: bool,
    shift: bool,
)
    requires
        holds(f, a, s, b),
    ensures
        ({
            let g = edited(f, multiline, Key::Enter, None, shift).0;
            if multiline {
                g.text == a + seq!['\n'] + b && g.cursor == a.len() + 1 && g.anchor is None
            } else {
                g == f
            }
        }),
{
    lemma_parts(f, a, s, b);
    let g = edited(f, multiline, Key::Enter, None, shift).0;
    if multiline {
        assert(g.text =~= a + seq!['\n'] + b);
    }
}

/// Backspace and Delete take the selection out, and leave the caret where it was.
pub proof fn law_selection_is_deleted(
    f: FieldState,
    a: Seq<char>,
    s: Seq<char>,
    b: Seq<char>,
    multiline: bool,
    key: Key,
    typed: Option<Seq<char>>,
    shift: bool,
)
    requires
        holds(f, a, s, b),
        f.anchor is Some,
        key == Key::Backspace || key == Key::Delete,
    ensures
        ({
            let g = edited(f, multiline, key, typed, shift).0;
            g.text == a + b && g.cursor == a.len() && g.anchor is None
        }),
{
    lemma_parts(f, a, s, b);
    let g = edited(f, multiline, key, typed, shift).0;
    assert(g.text =~= a + b);
}

/// Without a selection Backspace takes out the character before the caret and Delete the one
/// behind it; at the start and at the end of the text they do nothing.
pub proof fn law_one_character_is_deleted(
    f: FieldState,
    a: Seq<char>,
    b: Seq<char>,
    multiline: bool,
    typed: Option<Seq<char>>,
    shift: bool,
)
    requires
        f.text == a + b,
        f.text.len() <= usize::MAX,
        f.cursor == a.len(),
        f.anchor is None,
    ensures
        ({
            let g = edited(f, multiline, Key::Backspace, typed, shift).0;
            if a.len() == 0 {
                g == f
            } else {
                g.text == a.drop_last() + b && g.cursor == a.len() - 1 && g.anchor is None
            }
        }),
        ({
            let g = edited(f, multiline, Key::Delete, typed, shift).0;
            if b.len() == 0 {
                g == f
            } else {
                g.text == a + b.skip(1) && g.cursor == a.len() && g.anchor is None
            }
        }),
{
    let g = edited(f, multiline, Key::Backspace, typed, shift).0;
    if a.len() > 0 {
        assert(g.text =~= a.drop_last() + b);
    }
    let h = edited(f, multiline, Key::Delete, typed, shift).0;
    if b.len() > 0 {
        assert(h.text =~= a + b.skip(1));
    }
}

/// Where a key takes the caret, and where one that ends the selection leaves it.
pub open spec fn caret_goes(
    f: FieldState,
    a: Seq<char>,
    s: Seq<char>,
    key: Key,
    shift: bool,
    to: int,
) -> bool {
    let left = a.len() as int;
    let right = left + s.len();
    let len = f.text.len() as int;
    if key == Key::Home {
        to == 0
    } else if key == Key::End {
        to == len
    } else if f.anchor is Some && !shift {
        // The selection ends, and the caret stays at the end of it that the arrow points to.
        if key == Key::ArrowLeft {
            to == left
        } else {
            to == right
        }
    } else if key == Key::ArrowLeft {
        to == f.cursor - 1 || (to == 0 && f.cursor == 0)
    } else {
        to == f.cursor + 1 || (to == len && f.cursor == len)
    }
}

/// Arrows, Home and End move the caret and leave the text. With Shift the selection keeps
/// its start, or starts where the caret was; without, it ends.
pub proof fn law_caret_keys_move_the_caret(
    f: FieldState,
    a: Seq<char>,
    s: Seq<char>,
    b: Seq<char>,
    multiline: bool,
    key: Key,
    typed: Option<Seq<char>>,
    shift: bool,
)
    requires
        holds(f, a, s, b),
        key == Key::ArrowLeft || key == Key::ArrowRight || key == Key::Home || key == Key::End,
    ensures
        ({
            let g = edited(f, multiline, key, typed, shift).0;
            &&& g.text == f.text
            &&& caret_goes(f, a, s, key, shift, g.cursor)
            &&& !shift ==> g.anchor is None
            &&& shift && f.anchor is Some ==> g.anchor == f.anchor
            &&& shift && f.anchor is None ==> g.anchor == Some(f.cursor as usize)
        }),
{
}

} // verus!
