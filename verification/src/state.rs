//! A state struct's values, as the derived `get` and `set` reach them by path.
//!
//! A [`State`] lists the fields of a struct with what they hold. What a path leads
//! to is decided by the arms of the derive ([`arm_at`]), nested states included.

use vstd::prelude::*;
use vstd::string::*;
use crate::derive::{
    arm_at, law_fields_are_reached_by_name, lemma_arm_range, texts, ArmView, ScalarKind,
};
use crate::text::str_eq;

verus! {

/// A value that a binding reads or writes.
#[derive(Debug)]
pub enum StateValue<V> {
    Str(String),
    Bool(bool),
    Number(V),
}

/// The model of a value.
pub enum Held<V> {
    Str(Seq<char>),
    Bool(bool),
    Number(V),
}

impl<V> View for StateValue<V> {
    type V = Held<V>;

    open spec fn view(&self) -> Held<V> {
        match self {
            StateValue::Str(s) => Held::Str(s@),
            StateValue::Bool(b) => Held::Bool(*b),
            StateValue::Number(v) => Held::Number(*v),
        }
    }
}

/// A number field: what it reads as, and what it holds after a number was cast to
/// its own type. [`Whole`] says which for whole numbers.
pub trait FieldNumber<V>: Sized {
    closed spec fn read_of(self) -> V {
        arbitrary()
    }

    closed spec fn cast_of(self, v: V) -> Self {
        arbitrary()
    }

    fn read(&self) -> (r: V)
        ensures
            r == (*self).read_of(),
    ;

    fn cast(&self, v: &V) -> (r: Self)
        ensures
            r == (*self).cast_of(*v),
    ;
}

/// A whole number between two bounds: one beyond them is cast to the nearer bound.
#[derive(Debug, Clone, Copy, PartialEq, Eq, Structural)]
pub struct Whole {
    pub least: i64,
    pub most: i64,
    pub n: i64,
}

impl FieldNumber<i64> for Whole {
    open spec fn read_of(self) -> i64 {
        self.n
    }

    open spec fn cast_of(self, v: i64) -> Self {
        Whole {
            n: if v > self.most {
                self.most
            } else if v < self.least {
                self.least
            } else {
                v
            },
            ..self
        }
    }

    fn read(&self) -> (r: i64) {
        self.n
    }

    fn cast(&self, v: &i64) -> (r: Self) {
        let n: i64 = if *v > self.most {
            self.most
        } else if *v < self.least {
            self.least
        } else {
            *v
        };
        Whole { least: self.least, most: self.most, n }
    }
}

/// What a field holds.
#[derive(Debug)]
pub enum Slot<N> {
    Str(String),
    Bool(bool),
    Number(N),
    Nested(State<N>),
}

/// A struct: its fields by name.
#[derive(Debug)]
pub struct State<N> {
    pub fields: Vec<(String, Slot<N>)>,
}

/// The model of what a field holds.
pub enum SlotView<N> {
    Str(Seq<char>),
    Bool(bool),
    Number(N),
    Nested(Seq<(Seq<char>, SlotView<N>)>),
}

/// The model of a struct.
pub type Fields<N> = Seq<(Seq<char>, SlotView<N>)>;

pub open spec fn slot_view<N>(s: Slot<N>) -> SlotView<N>
    decreases s,
{
    match s {
        Slot::Str(t) => SlotView::Str(t@),
        Slot::Bool(b) => SlotView::Bool(b),
        Slot::Number(n) => SlotView::Number(n),
        Slot::Nested(st) => SlotView::Nested(
            Seq::new(
                st.fields@.len(),
                |i: int|
                    if 0 <= i < st.fields@.len() {
                        (st.fields@[i].0@, slot_view(st.fields@[i].1))
                    } else {
                        arbitrary()
                    },
            ),
        ),
    }
}

pub open spec fn fields_view<N>(fields: Seq<(String, Slot<N>)>) -> Fields<N> {
    Seq::new(fields.len(), |i: int| (fields[i].0@, slot_view(fields[i].1)))
}

impl<N> View for State<N> {
    type V = Fields<N>;

    open spec fn view(&self) -> Fields<N> {
        fields_view(self.fields@)
    }
}

/// The kind of a field by what it holds; `None` for a nested state.
pub open spec fn slot_kind<N>(s: SlotView<N>) -> Option<ScalarKind> {
    match s {
        SlotView::Str(_) => Some(ScalarKind::Str),
        SlotView::Bool(_) => Some(ScalarKind::Bool),
        SlotView::Number(_) => Some(ScalarKind::Number),
        SlotView::Nested(_) => None,
    }
}

/// The arms that the derive makes for such a struct.
pub open spec fn arms_of<N>(fields: Fields<N>) -> Seq<ArmView> {
    fields.map_values(|f: (Seq<char>, SlotView<N>)| (f.0, slot_kind(f.1)))
}

/// What a leaf reads as.
pub open spec fn value_of<V, N: FieldNumber<V>>(s: SlotView<N>) -> Option<Held<V>> {
    match s {
        SlotView::Str(t) => Some(Held::Str(t)),
        SlotView::Bool(b) => Some(Held::Bool(b)),
        SlotView::Number(n) => Some(Held::Number(n.read_of())),
        SlotView::Nested(_) => None,
    }
}

/// What a leaf holds after `v` was written to it; `None` if `v` is of another
/// kind.
pub open spec fn written<V, N: FieldNumber<V>>(s: SlotView<N>, v: Held<V>) -> Option<SlotView<N>> {
    match (s, v) {
        (SlotView::Str(_), Held::Str(t)) => Some(SlotView::Str(t)),
        (SlotView::Bool(_), Held::Bool(b)) => Some(SlotView::Bool(b)),
        (SlotView::Number(n), Held::Number(x)) => Some(SlotView::Number(n.cast_of(x))),
        _ => None,
    }
}

/// The leaf that a path leads to.
pub open spec fn leaf_at<N>(fields: Fields<N>, path: Seq<Seq<char>>) -> Option<SlotView<N>>
    decreases path.len(),
{
    if path.len() == 0 {
        None
    } else {
        match arm_at(arms_of(fields), path, 0) {
            Some(i) => match fields[i].1 {
                SlotView::Nested(inner) => leaf_at(inner, path.skip(1)),
                leaf => Some(leaf),
            },
            None => None,
        }
    }
}

/// What `get` returns for a path.
pub open spec fn get_of<V, N: FieldNumber<V>>(
    fields: Fields<N>,
    path: Seq<Seq<char>>,
) -> Option<Held<V>> {
    match leaf_at(fields, path) {
        Some(leaf) => value_of(leaf),
        None => None,
    }
}

/// The struct after `set`, and whether `set` wrote anything.
pub open spec fn set_of<V, N: FieldNumber<V>>(
    fields: Fields<N>,
    path: Seq<Seq<char>>,
    v: Held<V>,
) -> (Fields<N>, bool)
    decreases path.len(),
{
    if path.len() == 0 {
        (fields, false)
    } else {
        match arm_at(arms_of(fields), path, 0) {
            Some(i) => match fields[i].1 {
                SlotView::Nested(inner) => {
                    let (after, ok) = set_of(inner, path.skip(1), v);
                    (fields.update(i, (fields[i].0, SlotView::Nested(after))), ok)
                },
                leaf => match written(leaf, v) {
                    Some(s) => (fields.update(i, (fields[i].0, s)), true),
                    None => (fields, false),
                },
            },
            None => (fields, false),
        }
    }
}

/// Which field the path from segment `from` on leads to.
fn find_arm<N>(fields: &Vec<(String, Slot<N>)>, path: &Vec<String>, from: usize) -> (r: Option<
    usize,
>)
    requires
        from <= path@.len(),
    ensures
        match r {
            Some(i) => {
                &&& arm_at(
                    arms_of(fields_view(fields@)),
                    texts(path@).skip(from as int),
                    0,
                ) == Some(i as int)
                &&& i < fields@.len()
                &&& from < path@.len()
            },
            None => arm_at(
                arms_of(fields_view(fields@)),
                texts(path@).skip(from as int),
                0,
            ) is None,
        },
{
    let ghost arms = arms_of(fields_view(fields@));
    let ghost p = texts(path@).skip(from as int);
    let mut i: usize = 0;
    if from < path.len() {
        assert(p[0] == path@[from as int]@);
    }
    while i < fields.len()
        invariant
            0 <= i <= fields@.len(),
            from <= path@.len(),
            arms == arms_of(fields_view(fields@)),
            p == texts(path@).skip(from as int),
            from < path@.len() ==> p[0] == path@[from as int]@,
            arm_at(arms, p, i as int) == arm_at(arms, p, 0),
        decreases fields@.len() - i,
    {
        let nested: bool = match &fields[i].1 {
            Slot::Nested(_) => true,
            _ => false,
        };
        assert(arms[i as int] == (fields@[i as int].0@, slot_kind(slot_view(fields@[i as int].1))));
        if from < path.len() && str_eq(path[from].as_str(), fields[i].0.as_str()) && (nested || from
            + 1 == path.len()) {
            return Some(i);
        }
        i = i + 1;
    }
    None
}

fn get_at<V, N: FieldNumber<V>>(
    fields: &Vec<(String, Slot<N>)>,
    path: &Vec<String>,
    from: usize,
) -> (r: Option<StateValue<V>>)
    requires
        from <= path@.len(),
    ensures
        match r {
            Some(v) => get_of::<V, N>(fields_view(fields@), texts(path@).skip(from as int)) == Some(
                v@,
            ),
            None => get_of::<V, N>(
                fields_view(fields@),
                texts(path@).skip(from as int),
            ) is None,
        },
    decreases path@.len() - from,
{
    let ghost fs = fields_view(fields@);
    let ghost p = texts(path@).skip(from as int);
    let _ = path.len();
    match find_arm(fields, path, from) {
        Some(i) => {
            assert(fs[i as int].1 == slot_view(fields@[i as int].1));
            match &fields[i].1 {
                Slot::Nested(inner) => {
                    proof {
                        assert(p.skip(1) =~= texts(path@).skip(from + 1));
                        assert(fs[i as int].1->Nested_0 =~= fields_view(inner.fields@));
                    }
                    get_at(&inner.fields, path, from + 1)
                },
                Slot::Str(s) => Some(StateValue::Str(s.clone())),
                Slot::Bool(b) => Some(StateValue::Bool(*b)),
                Slot::Number(n) => Some(StateValue::Number(n.read())),
            }
        },
        None => None,
    }
}

fn set_at<V, N: FieldNumber<V>>(
    fields: &mut Vec<(String, Slot<N>)>,
    path: &Vec<String>,
    from: usize,
    value: &StateValue<V>,
) -> (r: bool)
    requires
        from <= path@.len(),
    ensures
        (fields_view(final(fields)@), r) == set_of::<V, N>(
            fields_view(old(fields)@),
            texts(path@).skip(from as int),
            value@,
        ),
    decreases path@.len() - from,
{
    let ghost fs = fields_view(fields@);
    let ghost p = texts(path@).skip(from as int);
    let ghost before = fields@;
    let _ = path.len();
    let i: usize = match find_arm(fields, path, from) {
        Some(i) => i,
        None => {
            return false;
        },
    };
    assert(fs[i as int].1 == slot_view(before[i as int].1));
    let ok: bool = match (&mut fields[i].1, value) {
        (Slot::Nested(inner), _) => {
            proof {
                assert(p.skip(1) =~= texts(path@).skip(from + 1));
                assert(fs[i as int].1->Nested_0 =~= fields_view(inner.fields@));
            }
            set_at(&mut inner.fields, path, from + 1, value)
        },
        (Slot::Str(s), StateValue::Str(v)) => {
            *s = v.clone();
            true
        },
        (Slot::Bool(b), StateValue::Bool(v)) => {
            *b = *v;
            true
        },
        (Slot::Number(n), StateValue::Number(v)) => {
            *n = n.cast(v);
            true
        },
        _ => false,
    };
    proof {
        let want = set_of::<V, N>(fs, p, value@);
        if fs[i as int].1 is Nested {
            assert(slot_view(fields@[i as int].1)->Nested_0 =~= want.0[i as int].1->Nested_0);
        }
        assert(fields_view(fields@) =~= want.0);
    }
    ok
}

impl<N> State<N> {
    /// The value that `path` leads to; `None` for the empty path, for a name that
    /// no field has, and for a path that goes on past a leaf.
    pub fn get<V>(&self, path: &Vec<String>) -> (r: Option<StateValue<V>>) where N: FieldNumber<V>
        ensures
            match r {
                Some(v) => get_of::<V, N>(self@, texts(path@)) == Some(v@),
                None => get_of::<V, N>(self@, texts(path@)) is None,
            },
    {
        assert(texts(path@).skip(0) =~= texts(path@));
        get_at(&self.fields, path, 0)
    }

    /// Writes `value` to the leaf that `path` leads to. Returns whether it did:
    /// there has to be such a leaf, of the value's kind.
    pub fn set<V>(&mut self, path: &Vec<String>, value: &StateValue<V>) -> (r: bool) where
        N: FieldNumber<V>,

        ensures
            (final(self)@, r) == set_of::<V, N>(old(self)@, texts(path@), value@),
    {
        assert(texts(path@).skip(0) =~= texts(path@));
        set_at(&mut self.fields, path, 0, value)
    }
}

// ---- laws ----

/// The state of a struct follows the arms that were derived for it: a path goes to
/// the leaf whose arm takes it, on into the nested state whose arm does, and
/// nowhere if none does.
pub proof fn law_state_follows_its_arms<N>(
    fields: Fields<N>,
    arms: Seq<ArmView>,
    path: Seq<Seq<char>>,
)
    requires
        arms_of(fields) == arms,
    ensures
        match arm_at(arms, path, 0) {
            Some(i) => {
                &&& 0 <= i < fields.len()
                &&& arms[i].1 is Some ==> leaf_at(fields, path) == Some(fields[i].1)
                &&& arms[i].1 is None ==> fields[i].1 is Nested && leaf_at(fields, path) == leaf_at(
                    fields[i].1->Nested_0,
                    path.skip(1),
                )
            },
            None => leaf_at(fields, path) is None,
        },
{
    lemma_arm_range(arms, path, 0);
    if let Some(i) = arm_at(arms, path, 0) {
        assert(arms[i] == (fields[i].0, slot_kind(fields[i].1)));
    }
}

/// Writing changes the leaf that the path leads to, and nothing else: every other
/// path leads to the leaf that it led to before, and no field changes its name or
/// its kind. It writes if, and only if, there is a leaf of the value's kind there;
/// else everything stays as it is.
pub proof fn law_set_writes_one_leaf<V, N: FieldNumber<V>>(
    fields: Fields<N>,
    path: Seq<Seq<char>>,
    v: Held<V>,
    other: Seq<Seq<char>>,
)
    ensures
        ({
            let (after, ok) = set_of::<V, N>(fields, path, v);
            &&& arms_of(after) == arms_of(fields)
            &&& ok <==> (leaf_at(fields, path) is Some && written(
                leaf_at(fields, path)->0,
                v,
            ) is Some)
            &&& ok ==> leaf_at(after, path) == written(leaf_at(fields, path)->0, v)
            &&& other != path ==> leaf_at(after, other) == leaf_at(fields, other)
            &&& !ok ==> after == fields
        }),
    decreases path.len(),
{
    let (after, ok) = set_of::<V, N>(fields, path, v);
    let arms = arms_of(fields);
    if path.len() > 0 {
        lemma_arm_range(arms, path, 0);
        lemma_arm_range(arms, other, 0);
        if let Some(i) = arm_at(arms, path, 0) {
            assert(arms[i] == (fields[i].0, slot_kind(fields[i].1)));
            if let SlotView::Nested(inner) = fields[i].1 {
                law_set_writes_one_leaf::<V, N>(inner, path.skip(1), v, other.skip(1));
                assert(arms_of(after) =~= arms);
                if !ok {
                    assert(after =~= fields);
                }
                if other.len() > 0 && arm_at(arms, other, 0) == Some(i) {
                    assert(other[0] == path[0]);
                    if other.skip(1) == path.skip(1) {
                        assert(other =~= path) by {
                            assert forall|k: int| 0 < k < path.len() implies other[k] == path[k] by {
                                assert(other.skip(1)[k - 1] == path.skip(1)[k - 1]);
                            }
                            assert(other.skip(1).len() == path.skip(1).len());
                        }
                    }
                }
            } else {
                assert(arms_of(after) =~= arms);
                if arm_at(arms, other, 0) == Some(i) {
                    assert(other =~= path);
                }
            }
        }
    }
}

/// Getting what was set: after a text or a flag has been written, the path reads as
/// that text or flag, and after a number, as that number cast to the field's type.
pub proof fn law_get_after_set<V, N: FieldNumber<V>>(
    fields: Fields<N>,
    path: Seq<Seq<char>>,
    v: Held<V>,
)
    requires
        set_of::<V, N>(fields, path, v).1,
    ensures
        ({
            let after = set_of::<V, N>(fields, path, v).0;
            match v {
                Held::Number(x) => {
                    &&& leaf_at(fields, path) is Some
                    &&& leaf_at(fields, path)->0 is Number
                    &&& get_of::<V, N>(after, path) == Some(
                        Held::Number(leaf_at(fields, path)->0->Number_0.cast_of(x).read_of()),
                    )
                },
                _ => get_of::<V, N>(after, path) == Some(v),
            }
        }),
{
    law_set_writes_one_leaf::<V, N>(fields, path, v, path);
}

/// A field that holds a text, by its name alone: writing a text to it succeeds,
/// reads back, and changes no other field; a value of another kind is refused and
/// changes nothing.
pub proof fn law_text_field_by_name<V, N: FieldNumber<V>>(
    fields: Fields<N>,
    i: int,
    text: Seq<char>,
    v: Held<V>,
)
    requires
        0 <= i < fields.len(),
        fields[i].1 is Str,
        forall|a: int, b: int|
            0 <= a < b < fields.len() ==> (#[trigger] fields[a]).0 != (#[trigger] fields[b]).0,
    ensures
        set_of::<V, N>(fields, seq![fields[i].0], Held::Str(text)) == (
            fields.update(i, (fields[i].0, SlotView::Str(text))),
            true,
        ),
        get_of::<V, N>(
            fields.update(i, (fields[i].0, SlotView::Str(text))),
            seq![fields[i].0],
        ) == Some(Held::<V>::Str(text)),
        !(v is Str) ==> set_of::<V, N>(fields, seq![fields[i].0], v) == (fields, false),
{
    let path = seq![fields[i].0];
    let arms = arms_of(fields);
    assert forall|a: int, b: int| 0 <= a < b < arms.len() implies (#[trigger] arms[a]).0 != (
    #[trigger] arms[b]).0 by {
        assert(fields[a].0 != fields[b].0);
    }
    assert(arms[i] == (fields[i].0, slot_kind(fields[i].1)));
    law_fields_are_reached_by_name(arms, path, i, 0);
    law_get_after_set::<V, N>(fields, path, Held::Str(text));
}

/// A path that leads to no leaf reads as nothing and cannot be written: the empty
/// one, one whose first segment no field is named by, and one that goes on past a
/// leaf.
pub proof fn law_paths_to_nothing<V, N: FieldNumber<V>>(
    fields: Fields<N>,
    path: Seq<Seq<char>>,
    v: Held<V>,
)
    requires
        path.len() == 0 || (forall|i: int|
            0 <= i < fields.len() && (#[trigger] fields[i]).0 == path[0] ==> !(fields[i].1
                is Nested) && path.len() > 1),
    ensures
        get_of::<V, N>(fields, path) is None,
        set_of::<V, N>(fields, path, v) == (fields, false),
{
    let arms = arms_of(fields);
    lemma_arm_range(arms, path, 0);
    if let Some(i) = arm_at(arms, path, 0) {
        assert(arms[i] == (fields[i].0, slot_kind(fields[i].1)));
    }
}

/// A number that is written to a whole-number field is kept as it is between the
/// bounds of the field, and is the nearer bound beyond them; the bounds stay.
pub proof fn law_whole_number_is_held_to_its_bounds(w: Whole, v: i64)
    requires
        w.least <= w.most,
    ensures
        ({
            let r = w.cast_of(v);
            &&& r.least == w.least && r.most == w.most
            &&& w.least <= r.read_of() <= w.most
            &&& w.least <= v <= w.most ==> r.read_of() == v
            &&& v < w.least ==> r.read_of() == w.least
            &&& v > w.most ==> r.read_of() == w.most
        }),
{
}

} // verus!
