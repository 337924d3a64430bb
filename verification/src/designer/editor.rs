//! Keyboard editing of a text field.

use vstd::prelude::*;
use vstd::string::*;
use crate::text::{chars_of, str_eq};
use crate::toolkit::arena::{Node, NodeId, NodeKind, Ui};
use crate::toolkit::num::Num;
use crate::toolkit::text_input::{
    char_len, cut, delete_range, insert_str, move_left, move_right, moved_left, moved_right,
    range_of, splice,
};

verus! {

/// The keys that editing tells apart.
#[derive(Debug, Clone, Copy, PartialEq, Eq, Structural)]
pub enum Key {
    Enter,
    Backspace,
    Delete,
    ArrowLeft,
    ArrowRight,
    Home,
    End,
    Escape,
    /// A key that gives this character.
    Char(char),
    Other,
}

/// A control character: a code of the first or the second control block, or DEL.
pub open spec fn is_control(c: char) -> bool {
    (c as u32) < 0x20 || (0x7f <= (c as u32) && (c as u32) <= 0x9f)
}

fn control(c: char) -> (r: bool)
    ensures
        r == is_control(c),
{
    let v: u32 = c as u32;
    v < 0x20 || (0x7f <= v && v <= 0x9f)
}

/// The characters of a text that can be typed into a field.
pub open spec fn typeable(cs: Seq<char>) -> Seq<char>
    decreases cs.len(),
{
    if cs.len() == 0 {
        Seq::empty()
    } else if is_control(cs.last()) {
        typeable(cs.drop_last())
    } else {
        typeable(cs.drop_last()).push(cs.last())
    }
}

fn typed_text(text: &str) -> (r: String)
    ensures
        r@ == typeable(text@),
        r@.len() <= text@.len(),
{
    let cs: Vec<char> = chars_of(text);
    let mut out: String = String::new();
    let mut i: usize = 0;
    assert(cs@.take(0) =~= Seq::<char>::empty());
    while i < cs.len()
        invariant
            0 <= i <= cs@.len(),
            out@ == typeable(cs@.take(i as int)),
            out@.len() <= i,
        decreases cs@.len() - i,
    {
        assert(cs@.take(i + 1).drop_last() =~= cs@.take(i as int));
        assert(cs@.take(i + 1).last() == cs@[i as int]);
        if !control(cs[i]) {
            out.push(cs[i]);
        }
        i = i + 1;
    }
    assert(cs@.take(cs@.len() as int) =~= cs@);
    out
}

/// What a field holds: its text, the caret, and the selection's other end.
pub struct FieldState {
    pub text: Seq<char>,
    pub cursor: int,
    pub anchor: Option<usize>,
}

/// A field without its selection; the caret stands where the selection began.
pub open spec fn without_selection(f: FieldState) -> FieldState {
    match f.anchor {
        Some(a) => {
            let r = range_of(f.cursor, a as int);
            FieldState {
                text: cut(f.text, r.0, r.1),
                cursor: r.0,
                anchor: None,
            }
        },
        None => f,
    }
}

/// A field with `text` typed over its selection.
pub open spec fn with_typed(f: FieldState, text: Seq<char>) -> FieldState {
    let g = without_selection(f);
    FieldState {
        text: splice(g.text, g.cursor, text),
        cursor: g.cursor + text.len(),
        anchor: None,
    }
}

/// A field with the caret at `to`; with `shift` the selection starts or grows,
/// without it ends.
pub open spec fn with_caret(f: FieldState, to: int, shift: bool) -> FieldState {
    FieldState {
        text: f.text,
        cursor: to,
        anchor: if !shift {
            None
        } else if f.anchor is Some {
            f.anchor
        } else {
            Some(f.cursor as usize)
        },
    }
}

/// The field after a key. `typed` is the text that the key types, if any.
pub open spec fn after_key(
    f: FieldState,
    multiline: bool,
    key: Key,
    typed: Option<Seq<char>>,
    shift: bool,
) -> FieldState {
    if key == Key::Enter && multiline {
        with_typed(f, seq!['\n'])
    } else if key == Key::Backspace {
        if f.anchor is Some {
            without_selection(f)
        } else if f.cursor > 0 {
            FieldState {
                text: cut(f.text, f.cursor - 1, f.cursor),
                cursor: f.cursor - 1,
                anchor: None,
            }
        } else {
            f
        }
    } else if key == Key::Delete {
        if f.anchor is Some {
            without_selection(f)
        } else if f.cursor < f.text.len() {
            FieldState {
                text: cut(f.text, f.cursor, f.cursor + 1),
                cursor: f.cursor,
                anchor: None,
            }
        } else {
            f
        }
    } else if key == Key::ArrowLeft {
        let (c, a) = moved_left(f.cursor, f.anchor, shift);
        FieldState { text: f.text, cursor: c, anchor: a }
    } else if key == Key::ArrowRight {
        let (c, a) = moved_right(f.cursor, f.anchor, shift, f.text.len() as int);
        FieldState { text: f.text, cursor: c, anchor: a }
    } else if key == Key::Home {
        with_caret(f, 0, shift)
    } else if key == Key::End {
        with_caret(f, f.text.len() as int, shift)
    } else {
        match typed {
            Some(t) => if typeable(t).len() > 0 {
                with_typed(f, typeable(t))
            } else {
                f
            },
            None => f,
        }
    }
}

/// The field after a key, and whether its text actually changed: typing a
/// character over a selection of just that character does not change it.
pub open spec fn edited(
    f: FieldState,
    multiline: bool,
    key: Key,
    typed: Option<Seq<char>>,
    shift: bool,
) -> (FieldState, bool) {
    let g = after_key(f, multiline, key, typed, shift);
    (g, g.text != f.text)
}

pub open spec fn field(label: String, cursor: usize, anchor: Option<usize>) -> FieldState {
    FieldState { text: label@, cursor: cursor as int, anchor }
}

/// Types `text` over the selection.
fn type_over(label: &mut String, cursor: &mut usize, anchor: &mut Option<usize>, text: &str)
    requires
        *old(cursor) + text@.len() <= usize::MAX,
    ensures
        field(*final(label), *final(cursor), *final(anchor)) == with_typed(
            field(*old(label), *old(cursor), *old(anchor)),
            text@,
        ),
{
    if let Some(a) = *anchor {
        *anchor = None;
        let _ = delete_range(label, cursor, a);
    }
    insert_str(label, cursor, text);
}

/// Applies a key to a field.
fn apply_key(
    label: &mut String,
    cursor: &mut usize,
    anchor: &mut Option<usize>,
    multiline: bool,
    key: Key,
    text: Option<&str>,
    shift: bool,
)
    requires
        *old(cursor) < usize::MAX,
        text matches Some(t) ==> *old(cursor) + t@.len() <= usize::MAX,
    ensures
        ({
            let typed = match text {
                Some(t) => Some(t@),
                None => None,
            };
            field(*final(label), *final(cursor), *final(anchor)) == after_key(
                field(*old(label), *old(cursor), *old(anchor)),
                multiline,
                key,
                typed,
                shift,
            )
        }),
{
    match key {
        Key::Enter if multiline => {
            proof {
                reveal_strlit("\n");
            }
            let nl: &str = "\n";
            assert(nl@ =~= seq!['\n']);
            type_over(label, cursor, anchor, nl);
        },
        Key::Backspace => match *anchor {
            Some(a) => {
                *anchor = None;
                let _ = delete_range(label, cursor, a);
            },
            None => if *cursor > 0 {
                let to: usize = *cursor - 1;
                let _ = delete_range(label, cursor, to);
            },
        },
        Key::Delete => match *anchor {
            Some(a) => {
                *anchor = None;
                let _ = delete_range(label, cursor, a);
            },
            None => if *cursor < char_len(label.as_str()) {
                let to: usize = *cursor + 1;
                let _ = delete_range(label, cursor, to);
            },
        },
        Key::ArrowLeft => {
            move_left(cursor, anchor, shift);
        },
        Key::ArrowRight => {
            let len: usize = char_len(label.as_str());
            move_right(cursor, anchor, shift, len);
        },
        Key::Home => {
            if shift {
                if anchor.is_none() {
                    *anchor = Some(*cursor);
                }
            } else {
                *anchor = None;
            }
            *cursor = 0;
        },
        Key::End => {
            if shift {
                if anchor.is_none() {
                    *anchor = Some(*cursor);
                }
            } else {
                *anchor = None;
            }
            *cursor = char_len(label.as_str());
        },
        _ => match text {
            Some(t) => {
                let typed: String = typed_text(t);
                if !typed.as_str().is_empty() {
                    type_over(label, cursor, anchor, typed.as_str());
                }
            },
            None => {},
        },
    }
}

/// Applies a key to a field. Returns whether its text actually changed: moving
/// the caret changes none.
pub fn edit_field(
    label: &mut String,
    cursor: &mut usize,
    anchor: &mut Option<usize>,
    multiline: bool,
    key: Key,
    text: Option<&str>,
    shift: bool,
) -> (r: bool)
    requires
        *old(cursor) < usize::MAX,
        text matches Some(t) ==> *old(cursor) + t@.len() <= usize::MAX,
    ensures
        ({
            let typed = match text {
                Some(t) => Some(t@),
                None => None,
            };
            (field(*final(label), *final(cursor), *final(anchor)), r) == edited(
                field(*old(label), *old(cursor), *old(anchor)),
                multiline,
                key,
                typed,
                shift,
            )
        }),
{
    let before: String = label.clone();
    apply_key(label, cursor, anchor, multiline, key, text, shift);
    !str_eq(label.as_str(), before.as_str())
}

/// The state of a text field node.
pub open spec fn node_field<N>(kind: NodeKind<N>) -> FieldState {
    match kind {
        NodeKind::TextInput { label, cursor, selection_anchor, .. } => field(
            label,
            cursor,
            selection_anchor,
        ),
        _ => FieldState { text: Seq::empty(), cursor: 0, anchor: None },
    }
}

/// A kind without what a text field holds.
pub open spec fn blank_kind<N>(kind: NodeKind<N>) -> NodeKind<N> {
    match kind {
        NodeKind::TextInput { label, placeholder, masked, cursor, selection_anchor, ime_preview } =>
        NodeKind::TextInput {
            label: arbitrary(),
            placeholder,
            masked,
            cursor: 0,
            selection_anchor: None,
            ime_preview,
        },
        _ => kind,
    }
}

/// Applies a key to text field node `id`; to any other node it does nothing.
/// Returns whether the text changed.
pub fn edit_text_input<N: Num>(
    ui: &mut Ui<N>,
    id: NodeId,
    key: Key,
    text: Option<&str>,
    shift: bool,
) -> (r: bool)
    requires
        id.0 < old(ui).nodes@.len(),
        node_field(old(ui).nodes@[id.0 as int].kind).cursor < usize::MAX,
        text matches Some(t) ==> node_field(old(ui).nodes@[id.0 as int].kind).cursor + t@.len()
            <= usize::MAX,
    ensures
        final(ui).nodes@.len() == old(ui).nodes@.len(),
        *final(ui) == (Ui { nodes: final(ui).nodes, ..*old(ui) }),
        forall|i: int|
            0 <= i < old(ui).nodes@.len() && i != id.0 ==> #[trigger] final(ui).nodes@[i]
                == old(ui).nodes@[i],
        ({
            let before = old(ui).nodes@[id.0 as int];
            let after = final(ui).nodes@[id.0 as int];
            let typed = match text {
                Some(t) => Some(t@),
                None => None,
            };
            if before.kind is TextInput {
                &&& after.kind is TextInput
                &&& blank_kind(after.kind) == blank_kind(before.kind)
                &&& (node_field(after.kind), r) == edited(
                    node_field(before.kind),
                    before.style.multiline,
                    key,
                    typed,
                    shift,
                )
                &&& after == (Node { kind: after.kind, ..before })
            } else {
                after == before && !r
            }
        }),
{
    let multiline: bool = ui.nodes[id.0 as usize].style.multiline;
    let node: &mut Node<N> = &mut ui.nodes[id.0 as usize];
    match &mut node.kind {
        NodeKind::TextInput { label, cursor, selection_anchor, .. } => edit_field(
            label,
            cursor,
            selection_anchor,
            multiline,
            key,
            text,
            shift,
        ),
        _ => false,
    }
}

// ---- laws ----

/// A key reports a change exactly if the text after it differs from the text
/// before it.
pub proof fn law_change_is_reported(
    f: FieldState,
    multiline: bool,
    key: Key,
    typed: Option<Seq<char>>,
    shift: bool,
)
    ensures
        edited(f, multiline, key, typed, shift).1 == (edited(
            f,
            multiline,
            key,
            typed,
            shift,
        ).0.text != f.text),
{
}

/// Editing keeps the caret and the selection inside the text.
pub proof fn law_editing_keeps_caret_inside(
    f: FieldState,
    multiline: bool,
    key: Key,
    typed: Option<Seq<char>>,
    shift: bool,
)
    requires
        0 <= f.cursor <= f.text.len() <= usize::MAX,
        f.anchor matches Some(a) ==> a <= f.text.len(),
    ensures
        ({
            let g = edited(f, multiline, key, typed, shift).0;
            &&& 0 <= g.cursor <= g.text.len()
            &&& g.anchor matches Some(a) ==> a <= g.text.len()
        }),
{
}

/// Backspace after a typed character gives the text back, and so does Delete
/// with the caret moved back in front of it.
pub proof fn law_backspace_undoes_typing(f: FieldState, c: char, multiline: bool)
    requires
        0 <= f.cursor <= f.text.len(),
        f.anchor is None,
        !is_control(c),
    ensures
        ({
            let g = edited(f, multiline, Key::Other, Some(seq![c]), false).0;
            let h = edited(g, multiline, Key::Backspace, None, false).0;
            h.text == f.text && h.cursor == f.cursor && h.anchor is None
        }),
{
    assert(seq![c].drop_last() =~= Seq::<char>::empty());
    assert(typeable(seq![c].drop_last()) =~= Seq::<char>::empty());
    assert(typeable(seq![c]) =~= seq![c]);
    crate::toolkit::text_input::law_delete_undoes_insert(f.text, f.cursor, seq![c]);
}

} // verus!
