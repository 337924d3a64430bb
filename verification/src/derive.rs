//! What the `NowUiState` derive generates for a state struct: string-path access
//! to its fields, and calls of its listed methods.
//!
//! A struct is seen as its field names with the paths of their types
//! ([`StateInput`]). [`derive_nowui_state`] turns it into the arms of the
//! generated `get`, `set` and `call`; [`route`] and [`route_call`] are where those
//! arms go with a path, and [`crate::state`] says what they read and write there.
//!
//!   * Only structs with named fields are supported.
//!   * `String`, `bool` and number fields are leaves, by the bare name of the type;
//!     any other field type is taken to implement the trait itself, and the rest
//!     of the path is its.
//!   * Methods are listed in `#[nowui(methods(a, b))]`.

use vstd::prelude::*;
use vstd::string::*;
use crate::text::str_eq;

verus! {

/// A field: its name, and the segments of its type's path if its type is one.
pub struct Field {
    pub name: String,
    pub ty: Option<Vec<String>>,
}

/// The shape of what the derive stands on.
pub enum StateData {
    NamedStruct(Vec<Field>),
    OtherStruct,
    NotStruct,
}

/// One entry of a `#[nowui(...)]` attribute: its name, and the entries in its
/// parentheses, each by its name if it is a single identifier.
pub struct AttrEntry {
    pub name: String,
    pub inner: Vec<Option<String>>,
}

/// An attribute: whether it is `nowui`, and its entries.
pub struct Attr {
    pub is_nowui: bool,
    pub entries: Vec<AttrEntry>,
}

/// What the derive stands on.
pub struct StateInput {
    pub data: StateData,
    pub attrs: Vec<Attr>,
}

/// The kinds of leaf fields.
#[derive(Debug, Clone, Copy, PartialEq, Eq, Structural)]
pub enum ScalarKind {
    Str,
    Bool,
    Number,
}

/// An arm of `get` and `set`: the field, and its kind if it is a leaf.
#[derive(Debug)]
pub struct FieldArm {
    pub name: String,
    pub kind: Option<ScalarKind>,
}

/// An arm of `call`.
#[derive(Debug)]
pub enum CallArm {
    /// Hands the rest of the path to a field.
    Field(String),
    /// Calls a method.
    Method(String),
}

/// The arms of the generated impl, in order.
#[derive(Debug)]
pub struct Derived {
    pub fields: Vec<FieldArm>,
    pub calls: Vec<CallArm>,
}

/// What is said against an input that cannot be derived for.
#[derive(Debug, Clone, Copy, PartialEq, Eq, Structural)]
pub enum DeriveError {
    /// The struct's fields have no names.
    UnnamedFields,
    /// It is no struct.
    NotStruct,
    /// An entry of `methods(...)` is no method name.
    MethodName,
    /// An entry of the attribute is not `methods(...)`.
    UnknownEntry,
}

impl DeriveError {
    pub open spec fn text(&self) -> Seq<char> {
        match self {
            DeriveError::UnnamedFields => "#[derive(NowUiState)] requires a struct with named fields"@,
            DeriveError::NotStruct => "#[derive(NowUiState)] only supports structs"@,
            DeriveError::MethodName => "expected a method name"@,
            DeriveError::UnknownEntry => "unknown `nowui` attribute — expected `methods(...)`"@,
        }
    }

    /// The message for the compiler to show.
    pub fn message(&self) -> (r: &'static str)
        ensures
            r@ == self.text(),
    {
        match self {
            DeriveError::UnnamedFields => "#[derive(NowUiState)] requires a struct with named fields",
            DeriveError::NotStruct => "#[derive(NowUiState)] only supports structs",
            DeriveError::MethodName => "expected a method name",
            DeriveError::UnknownEntry => "unknown `nowui` attribute — expected `methods(...)`",
        }
    }
}

// ---- kinds ----

pub open spec fn is_number_type(ty: Seq<char>) -> bool {
    ty == "i8"@ || ty == "i16"@ || ty == "i32"@ || ty == "i64"@ || ty == "i128"@ || ty == "isize"@
        || ty == "u8"@ || ty == "u16"@ || ty == "u32"@ || ty == "u64"@ || ty == "u128"@ || ty
        == "usize"@ || ty == "f32"@ || ty == "f64"@
}

/// The kind of a field by its type's bare name; `None` for a nested state.
pub open spec fn kind_of(ty: Option<Seq<char>>) -> Option<ScalarKind> {
    match ty {
        Some(t) => if t == "String"@ {
            Some(ScalarKind::Str)
        } else if t == "bool"@ {
            Some(ScalarKind::Bool)
        } else if is_number_type(t) {
            Some(ScalarKind::Number)
        } else {
            None
        },
        None => None,
    }
}

/// The bare name of a type; a type that is written with more than one segment has
/// none.
pub open spec fn bare_name(ty: Option<Vec<String>>) -> Option<Seq<char>> {
    match ty {
        Some(segments) => if segments@.len() == 1 {
            Some(segments@[0]@)
        } else {
            None
        },
        None => None,
    }
}

/// Classifies a field's type by its bare, unqualified name. Anything else is taken
/// for a nested state, `std::string::String` written out in full among it.
pub fn scalar_kind(ty: &Option<Vec<String>>) -> (r: Option<ScalarKind>)
    ensures
        r == kind_of(bare_name(*ty)),
{
    match ty {
        Some(segments) => {
            if segments.len() != 1 {
                return None;
            }
            let t: &str = segments[0].as_str();
            if str_eq(t, "String") {
                Some(ScalarKind::Str)
            } else if str_eq(t, "bool") {
                Some(ScalarKind::Bool)
            } else if str_eq(t, "i8") || str_eq(t, "i16") || str_eq(t, "i32") || str_eq(t, "i64")
                || str_eq(t, "i128") || str_eq(t, "isize") || str_eq(t, "u8") || str_eq(t, "u16")
                || str_eq(t, "u32") || str_eq(t, "u64") || str_eq(t, "u128") || str_eq(t, "usize")
                || str_eq(t, "f32") || str_eq(t, "f64") {
                Some(ScalarKind::Number)
            } else {
                None
            }
        },
        None => None,
    }
}

// ---- methods ----

/// The names among the first `n` of `inner`, or the error of one that is none.
pub open spec fn names_in(inner: Seq<Option<String>>, n: nat) -> Result<Seq<Seq<char>>, DeriveError>
    decreases n,
{
    if n == 0 {
        Ok(Seq::empty())
    } else {
        match names_in(inner, (n - 1) as nat) {
            Err(e) => Err(e),
            Ok(names) => match inner[n - 1] {
                Some(name) => Ok(names.push(name@)),
                None => Err(DeriveError::MethodName),
            },
        }
    }
}

/// The methods that the first `n` entries of an attribute list.
pub open spec fn methods_in(entries: Seq<AttrEntry>, n: nat) -> Result<Seq<Seq<char>>, DeriveError>
    decreases n,
{
    if n == 0 {
        Ok(Seq::empty())
    } else {
        match methods_in(entries, (n - 1) as nat) {
            Err(e) => Err(e),
            Ok(names) => if entries[n - 1].name@ == "methods"@ {
                match names_in(entries[n - 1].inner@, entries[n - 1].inner@.len()) {
                    Err(e) => Err(e),
                    Ok(more) => Ok(names + more),
                }
            } else {
                Err(DeriveError::UnknownEntry)
            },
        }
    }
}

/// The methods that the first `n` attributes list; other attributes than `nowui`
/// are passed over.
pub open spec fn methods_of(attrs: Seq<Attr>, n: nat) -> Result<Seq<Seq<char>>, DeriveError>
    decreases n,
{
    if n == 0 {
        Ok(Seq::empty())
    } else {
        match methods_of(attrs, (n - 1) as nat) {
            Err(e) => Err(e),
            Ok(names) => if !attrs[n - 1].is_nowui {
                Ok(names)
            } else {
                match methods_in(attrs[n - 1].entries@, attrs[n - 1].entries@.len()) {
                    Err(e) => Err(e),
                    Ok(more) => Ok(names + more),
                }
            },
        }
    }
}

pub open spec fn texts(v: Seq<String>) -> Seq<Seq<char>> {
    v.map_values(|s: String| s@)
}

proof fn lemma_names_error(inner: Seq<Option<String>>, k: nat, n: nat)
    requires
        k <= n,
        names_in(inner, k) is Err,
    ensures
        names_in(inner, n) == names_in(inner, k),
    decreases n,
{
    if k < n {
        lemma_names_error(inner, k, (n - 1) as nat);
    }
}

proof fn lemma_methods_error(entries: Seq<AttrEntry>, k: nat, n: nat)
    requires
        k <= n,
        methods_in(entries, k) is Err,
    ensures
        methods_in(entries, n) == methods_in(entries, k),
    decreases n,
{
    if k < n {
        lemma_methods_error(entries, k, (n - 1) as nat);
    }
}

proof fn lemma_attrs_error(attrs: Seq<Attr>, k: nat, n: nat)
    requires
        k <= n,
        methods_of(attrs, k) is Err,
    ensures
        methods_of(attrs, n) == methods_of(attrs, k),
    decreases n,
{
    if k < n {
        lemma_attrs_error(attrs, k, (n - 1) as nat);
    }
}

/// The methods that `#[nowui(methods(...))]` attributes list, in order. No such
/// attribute is fine.
pub fn parse_methods_attr(attrs: &Vec<Attr>) -> (r: Result<Vec<String>, DeriveError>)
    ensures
        match r {
            Ok(names) => methods_of(attrs@, attrs@.len()) == Ok::<_, DeriveError>(texts(names@)),
            Err(e) => methods_of(attrs@, attrs@.len()) == Err::<Seq<Seq<char>>, _>(e),
        },
{
    let mut names: Vec<String> = Vec::new();
    let mut a: usize = 0;
    assert(texts(names@) =~= Seq::<Seq<char>>::empty());
    while a < attrs.len()
        invariant
            0 <= a <= attrs@.len(),
            methods_of(attrs@, a as nat) == Ok::<_, DeriveError>(texts(names@)),
        decreases attrs@.len() - a,
    {
        if attrs[a].is_nowui {
            let entries: &Vec<AttrEntry> = &attrs[a].entries;
            let ghost before = texts(names@);
            let mut e: usize = 0;
            assert(before + Seq::<Seq<char>>::empty() =~= before);
            while e < entries.len()
                invariant
                    0 <= e <= entries@.len(),
                    a < attrs@.len(),
                    attrs@[a as int].is_nowui,
                    entries == attrs@[a as int].entries,
                    methods_of(attrs@, a as nat) == Ok::<_, DeriveError>(before),
                    methods_in(entries@, e as nat) is Ok,
                    texts(names@) == before + methods_in(entries@, e as nat)->Ok_0,
                decreases entries@.len() - e,
            {
                let ghost upto = methods_in(entries@, e as nat)->Ok_0;
                if !str_eq(entries[e].name.as_str(), "methods") {
                    proof {
                        lemma_methods_error(entries@, (e + 1) as nat, entries@.len());
                        lemma_attrs_error(attrs@, (a + 1) as nat, attrs@.len());
                    }
                    return Err(DeriveError::UnknownEntry);
                }
                let inner: &Vec<Option<String>> = &entries[e].inner;
                let mut k: usize = 0;
                assert(before + upto + Seq::<Seq<char>>::empty() =~= before + upto);
                while k < inner.len()
                    invariant
                        0 <= k <= inner@.len(),
                        e < entries@.len(),
                        a < attrs@.len(),
                        attrs@[a as int].is_nowui,
                        entries == attrs@[a as int].entries,
                        inner == entries@[e as int].inner,
                        entries@[e as int].name@ == "methods"@,
                        methods_of(attrs@, a as nat) == Ok::<_, DeriveError>(before),
                        methods_in(entries@, e as nat) == Ok::<_, DeriveError>(upto),
                        names_in(inner@, k as nat) is Ok,
                        texts(names@) == before + upto + names_in(inner@, k as nat)->Ok_0,
                    decreases inner@.len() - k,
                {
                    match &inner[k] {
                        Some(name) => {
                            let ghost old_texts = texts(names@);
                            let ghost some = names_in(inner@, k as nat)->Ok_0;
                            let owned: String = name.clone();
                            names.push(owned);
                            assert(texts(names@) =~= old_texts.push(name@));
                            assert(before + upto + some.push(name@) =~= (before + upto + some).push(
                                name@,
                            ));
                        },
                        None => {
                            proof {
                                lemma_names_error(inner@, (k + 1) as nat, inner@.len());
                                lemma_methods_error(entries@, (e + 1) as nat, entries@.len());
                                lemma_attrs_error(attrs@, (a + 1) as nat, attrs@.len());
                            }
                            return Err(DeriveError::MethodName);
                        },
                    }
                    k = k + 1;
                }
                proof {
                    let more = names_in(inner@, inner@.len())->Ok_0;
                    assert(before + upto + more =~= before + (upto + more));
                }
                e = e + 1;
            }
        }
        a = a + 1;
    }
    Ok(names)
}

// ---- arms ----

/// `arm` is the arm of field `f`.
pub open spec fn is_arm_of(arm: FieldArm, f: Field) -> bool {
    arm.name@ == f.name@ && arm.kind == kind_of(bare_name(f.ty))
}

/// The names of those of the first `n` fields that are nested states.
pub open spec fn nested_names(fields: Seq<Field>, n: nat) -> Seq<Seq<char>>
    decreases n,
{
    if n == 0 {
        Seq::empty()
    } else {
        let rest = nested_names(fields, (n - 1) as nat);
        if kind_of(bare_name(fields[n - 1].ty)) is None {
            rest.push(fields[n - 1].name@)
        } else {
            rest
        }
    }
}

/// The model of an arm of `call`: whether it is a method, and its name.
pub open spec fn call_of(arm: CallArm) -> (bool, Seq<char>) {
    match arm {
        CallArm::Field(name) => (false, name@),
        CallArm::Method(name) => (true, name@),
    }
}

pub open spec fn calls_of(arms: Seq<CallArm>) -> Seq<(bool, Seq<char>)> {
    arms.map_values(|a: CallArm| call_of(a))
}

/// The arms of `call`: nested states first, then the methods.
pub open spec fn call_list(fields: Seq<Field>, methods: Seq<Seq<char>>) -> Seq<(bool, Seq<char>)> {
    nested_names(fields, fields.len()).map_values(|n: Seq<char>| (false, n)) + methods.map_values(
        |n: Seq<char>| (true, n),
    )
}

/// The generated arms for `input`, or why there are none. What is wrong with the
/// struct itself is said first.
pub fn derive_nowui_state(input: &StateInput) -> (r: Result<Derived, DeriveError>)
    ensures
        match input.data {
            StateData::NotStruct => r == Err::<Derived, _>(DeriveError::NotStruct),
            StateData::OtherStruct => r == Err::<Derived, _>(DeriveError::UnnamedFields),
            StateData::NamedStruct(fields) => match methods_of(input.attrs@, input.attrs@.len()) {
                Err(e) => r == Err::<Derived, _>(e),
                Ok(methods) => {
                    &&& r matches Ok(d)
                    &&& d.fields@.len() == fields@.len()
                    &&& forall|i: int|
                        0 <= i < fields@.len() ==> is_arm_of(#[trigger] d.fields@[i], fields@[i])
                    &&& calls_of(d.calls@) == call_list(fields@, methods)
                },
            },
        },
{
    let fields: &Vec<Field> = match &input.data {
        StateData::NamedStruct(fields) => fields,
        StateData::OtherStruct => {
            return Err(DeriveError::UnnamedFields);
        },
        StateData::NotStruct => {
            return Err(DeriveError::NotStruct);
        },
    };
    let methods: Vec<String> = match parse_methods_attr(&input.attrs) {
        Ok(m) => m,
        Err(e) => {
            return Err(e);
        },
    };
    let mut arms: Vec<FieldArm> = Vec::new();
    let mut calls: Vec<CallArm> = Vec::new();
    let mut i: usize = 0;
    assert(calls_of(calls@) =~= nested_names(fields@, 0).map_values(
        |n: Seq<char>| (false, n),
    ));
    while i < fields.len()
        invariant
            0 <= i <= fields@.len(),
            arms@.len() == i,
            forall|k: int| 0 <= k < i ==> is_arm_of(#[trigger] arms@[k], fields@[k]),
            calls_of(calls@) == nested_names(fields@, i as nat).map_values(
                |n: Seq<char>| (false, n),
            ),
        decreases fields@.len() - i,
    {
        let kind: Option<ScalarKind> = scalar_kind(&fields[i].ty);
        let name: String = fields[i].name.clone();
        if kind.is_none() {
            let ghost before = calls_of(calls@);
            let again: String = fields[i].name.clone();
            calls.push(CallArm::Field(again));
            proof {
                assert(calls_of(calls@) =~= before.push((false, fields@[i as int].name@)));
                assert(nested_names(fields@, (i + 1) as nat).map_values(|n: Seq<char>| (false, n))
                    =~= before.push((false, fields@[i as int].name@)));
            }
        }
        arms.push(FieldArm { name, kind });
        i = i + 1;
    }
    let ghost first = calls_of(calls@);
    let ghost wanted = texts(methods@).map_values(|n: Seq<char>| (true, n));
    let mut m: usize = 0;
    assert(first + wanted.take(0) =~= first);
    while m < methods.len()
        invariant
            0 <= m <= methods@.len(),
            wanted == texts(methods@).map_values(|n: Seq<char>| (true, n)),
            calls_of(calls@) == first + wanted.take(m as int),
        decreases methods@.len() - m,
    {
        let name: String = methods[m].clone();
        let ghost before = calls_of(calls@);
        calls.push(CallArm::Method(name));
        assert(calls_of(calls@) =~= before.push((true, methods@[m as int]@)));
        assert(wanted[m as int] == (true, methods@[m as int]@));
        m = m + 1;
        assert(calls_of(calls@) =~= first + wanted.take(m as int));
    }
    assert(wanted.take(m as int) =~= wanted);
    Ok(Derived { fields: arms, calls })
}

// ---- what the arms do ----

/// Where a path leads.
#[derive(Debug, Clone, Copy, PartialEq, Eq, Structural)]
pub enum Route {
    /// To nothing.
    Nowhere,
    /// To this leaf field.
    Leaf(usize),
    /// On into this nested state, with the rest of the path.
    Into(usize),
}

/// The model of an arm of `get` and `set`: the field's name, and its kind if it is
/// a leaf.
pub type ArmView = (Seq<char>, Option<ScalarKind>);

pub open spec fn arm_views(arms: Seq<FieldArm>) -> Seq<ArmView> {
    arms.map_values(|a: FieldArm| (a.name@, a.kind))
}

/// Whether an arm takes a path: its first segment is the field's name, and a
/// leaf is the end of the path.
pub open spec fn takes(arm: ArmView, path: Seq<Seq<char>>) -> bool {
    path.len() > 0 && path[0] == arm.0 && (arm.1 is None || path.len() == 1)
}

/// The first arm from `i` on that takes the path.
pub open spec fn arm_at(arms: Seq<ArmView>, path: Seq<Seq<char>>, i: int) -> Option<int>
    decreases arms.len() - i,
{
    if 0 <= i < arms.len() {
        if takes(arms[i], path) {
            Some(i)
        } else {
            arm_at(arms, path, i + 1)
        }
    } else {
        None
    }
}

/// Where `get` and `set` go with a path.
pub fn route(d: &Derived, path: &Vec<String>) -> (r: Route)
    ensures
        match arm_at(arm_views(d.fields@), texts(path@), 0) {
            Some(i) => if d.fields@[i].kind is Some {
                r matches Route::Leaf(k) && k == i
            } else {
                r matches Route::Into(k) && k == i
            },
            None => r == Route::Nowhere,
        },
{
    let ghost p = texts(path@);
    let ghost arms = arm_views(d.fields@);
    let mut i: usize = 0;
    if path.len() > 0 {
        assert(p[0] == path@[0]@);
    }
    while i < d.fields.len()
        invariant
            0 <= i <= d.fields@.len(),
            p == texts(path@),
            p.len() == path@.len(),
            path@.len() > 0 ==> p[0] == path@[0]@,
            arms == arm_views(d.fields@),
            arm_at(arms, p, i as int) == arm_at(arms, p, 0),
        decreases d.fields@.len() - i,
    {
        let leaf: bool = d.fields[i].kind.is_some();
        assert(arms[i as int] == (d.fields@[i as int].name@, d.fields@[i as int].kind));
        if path.len() > 0 && str_eq(path[0].as_str(), d.fields[i].name.as_str()) && (!leaf
            || path.len() == 1) {
            return if leaf {
                Route::Leaf(i)
            } else {
                Route::Into(i)
            };
        }
        i = i + 1;
    }
    Route::Nowhere
}

/// Where the first arm of `call` from `i` on that takes the path stands.
pub open spec fn call_from(
    arms: Seq<(bool, Seq<char>)>,
    path: Seq<Seq<char>>,
    i: int,
) -> Option<int>
    decreases arms.len() - i,
{
    if 0 <= i < arms.len() {
        if path.len() > 0 && path[0] == arms[i].1 && (!arms[i].0 || path.len() == 1) {
            Some(i)
        } else {
            call_from(arms, path, i + 1)
        }
    } else {
        None
    }
}

/// Which arm of `call` takes a path.
pub fn route_call(d: &Derived, path: &Vec<String>) -> (r: Option<usize>)
    ensures
        match r {
            Some(i) => call_from(calls_of(d.calls@), texts(path@), 0) == Some(i as int),
            None => call_from(calls_of(d.calls@), texts(path@), 0) is None,
        },
{
    let ghost p = texts(path@);
    let ghost arms = calls_of(d.calls@);
    let mut i: usize = 0;
    if path.len() > 0 {
        assert(p[0] == path@[0]@);
    }
    while i < d.calls.len()
        invariant
            0 <= i <= d.calls@.len(),
            p == texts(path@),
            p.len() == path@.len(),
            path@.len() > 0 ==> p[0] == path@[0]@,
            arms == calls_of(d.calls@),
            call_from(arms, p, i as int) == call_from(arms, p, 0),
        decreases d.calls@.len() - i,
    {
        assert(arms[i as int] == call_of(d.calls@[i as int]));
        let taken: bool = match &d.calls[i] {
            CallArm::Field(name) => path.len() > 0 && str_eq(path[0].as_str(), name.as_str()),
            CallArm::Method(name) => path.len() == 1 && str_eq(path[0].as_str(), name.as_str()),
        };
        if taken {
            return Some(i);
        }
        i = i + 1;
    }
    None
}

// ---- laws ----

/// With distinct field names, a leaf field is reached by its name alone, a nested
/// one by every path that starts with its name, and nothing else reaches them.
pub proof fn law_fields_are_reached_by_name(
    arms: Seq<ArmView>,
    path: Seq<Seq<char>>,
    i: int,
    from: int,
)
    requires
        0 <= from <= i < arms.len(),
        forall|a: int, b: int|
            0 <= a < b < arms.len() ==> (#[trigger] arms[a]).0 != (#[trigger] arms[b]).0,
    ensures
        arm_at(arms, path, from) == Some(i) <==> (path.len() > 0 && path[0] == arms[i].0 && (
        arms[i].1 is None || path.len() == 1)),
    decreases i - from,
{
    if from < i {
        law_fields_are_reached_by_name(arms, path, i, from + 1);
        assert(arms[from].0 != arms[i].0);
    } else {
        lemma_arm_range(arms, path, from + 1);
    }
}

/// What `arm_at` finds takes the path.
pub proof fn lemma_arm_range(arms: Seq<ArmView>, path: Seq<Seq<char>>, i: int)
    requires
        0 <= i,
    ensures
        arm_at(arms, path, i) matches Some(k) ==> i <= k < arms.len() && takes(arms[k], path),
    decreases arms.len() - i,
{
    if i < arms.len() && !takes(arms[i], path) {
        lemma_arm_range(arms, path, i + 1);
    }
}

/// The empty path leads nowhere, whatever the struct.
pub proof fn law_empty_path_leads_nowhere(
    arms: Seq<ArmView>,
    calls: Seq<(bool, Seq<char>)>,
    i: int,
)
    requires
        0 <= i,
    ensures
        arm_at(arms, Seq::empty(), i) is None,
        call_from(calls, Seq::empty(), i) is None,
    decreases arms.len() + calls.len() - i,
{
    if i < arms.len() || i < calls.len() {
        law_empty_path_leads_nowhere(arms, calls, i + 1);
    }
}

} // verus!
