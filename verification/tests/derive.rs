use nowui::derive::{
    derive_nowui_state, parse_methods_attr, route, route_call, scalar_kind, Attr, AttrEntry, CallArm, DeriveError, Field,
    Route, ScalarKind, StateData, StateInput,
};
use nowui::state::{Slot, State, StateValue, Whole};

fn field(name: &str, ty: Option<&str>) -> Field {
    Field { name: name.to_string(), ty: ty.map(segments) }
}

fn segments(path: &str) -> Vec<String> {
    path.split("::").map(|s| s.to_string()).collect()
}

fn methods(names: &[&str]) -> Attr {
    let inner = names.iter().map(|n| Some(n.to_string())).collect();
    Attr { is_nowui: true, entries: vec![AttrEntry { name: "methods".to_string(), inner }] }
}

fn path(text: &str) -> Vec<String> {
    text.split('.').filter(|s| !s.is_empty()).map(|s| s.to_string()).collect()
}

fn login() -> StateInput {
    StateInput {
        data: StateData::NamedStruct(vec![
            field("username", Some("String")),
            field("count", Some("u32")),
            field("busy", Some("bool")),
            field("profile", Some("Profile")),
        ]),
        attrs: vec![Attr { is_nowui: false, entries: vec![] }, methods(&["save"]), methods(&["reset"])],
    }
}

#[test]
fn fields_become_leaves_or_nested_states() {
    let d = derive_nowui_state(&login()).unwrap();
    let kinds: Vec<Option<ScalarKind>> = d.fields.iter().map(|f| f.kind).collect();
    assert_eq!(kinds, vec![Some(ScalarKind::Str), Some(ScalarKind::Number), Some(ScalarKind::Bool), None]);
    assert_eq!(d.calls.len(), 3);
    assert!(matches!(&d.calls[0], CallArm::Field(n) if n == "profile"));
    assert!(matches!(&d.calls[1], CallArm::Method(n) if n == "save"));
    assert!(matches!(&d.calls[2], CallArm::Method(n) if n == "reset"));
    assert_eq!(scalar_kind(&Some(segments("f64"))), Some(ScalarKind::Number));
    assert_eq!(scalar_kind(&None), None);
}

#[test]
fn paths_lead_to_the_field_they_name() {
    let d = derive_nowui_state(&login()).unwrap();
    assert!(matches!(route(&d, &path("count")), Route::Leaf(1)));
    assert!(matches!(route(&d, &path("profile")), Route::Into(3)));
    assert!(matches!(route(&d, &path("profile.name")), Route::Into(3)));
    assert!(matches!(route(&d, &path("count.more")), Route::Nowhere));
    assert!(matches!(route(&d, &path("")), Route::Nowhere));
    assert_eq!(route_call(&d, &path("reset")), Some(2));
    assert_eq!(route_call(&d, &path("profile.load")), Some(0));
    assert_eq!(route_call(&d, &path("save.now")), None);
    assert_eq!(route_call(&d, &path("")), None);
}

#[test]
fn what_cannot_be_derived_for_is_said() {
    let of = |data: StateData| StateInput { data, attrs: vec![] };
    assert_eq!(derive_nowui_state(&of(StateData::NotStruct)).unwrap_err(), DeriveError::NotStruct);
    assert_eq!(derive_nowui_state(&of(StateData::OtherStruct)).unwrap_err(), DeriveError::UnnamedFields);
    let odd = Attr { is_nowui: true, entries: vec![AttrEntry { name: "view".to_string(), inner: vec![] }] };
    assert_eq!(parse_methods_attr(&vec![odd]).unwrap_err(), DeriveError::UnknownEntry);
    let nameless = Attr { is_nowui: true, entries: vec![AttrEntry { name: "methods".to_string(), inner: vec![None] }] };
    let input = StateInput { data: StateData::NamedStruct(vec![]), attrs: vec![nameless] };
    let e = derive_nowui_state(&input).unwrap_err();
    assert_eq!((e, e.message()), (DeriveError::MethodName, "expected a method name"));
    assert_eq!(DeriveError::NotStruct.message(), "#[derive(NowUiState)] only supports structs");
}

#[test]
fn a_qualified_type_is_no_leaf() {
    assert_eq!(scalar_kind(&Some(segments("String"))), Some(ScalarKind::Str));
    assert_eq!(scalar_kind(&Some(segments("std::string::String"))), None);
}

fn profile() -> State<Whole> {
    let age = Whole { least: 0, most: 255, n: 30 };
    let inner = State { fields: vec![("name".to_string(), Slot::Str("Ann".to_string())), ("age".to_string(), Slot::Number(age))] };
    State {
        fields: vec![
            ("title".to_string(), Slot::Str("old".to_string())),
            ("busy".to_string(), Slot::Bool(false)),
            ("profile".to_string(), Slot::Nested(inner)),
        ],
    }
}

fn text_at(s: &State<Whole>, at: &str) -> Option<String> {
    match s.get::<i64>(&path(at)) {
        Some(StateValue::Str(t)) => Some(t),
        _ => None,
    }
}

#[test]
fn what_is_set_is_what_is_got() {
    let mut s = profile();
    assert!(s.set::<i64>(&path("title"), &StateValue::Str("new".to_string())));
    assert_eq!(text_at(&s, "title"), Some("new".to_string()));
    assert!(s.set::<i64>(&path("profile.name"), &StateValue::Str("Bob".to_string())));
    assert_eq!(text_at(&s, "profile.name"), Some("Bob".to_string()));
    assert_eq!(text_at(&s, "title"), Some("new".to_string()));
    assert!(s.set(&path("profile.age"), &StateValue::Number(300i64)));
    assert!(matches!(s.get::<i64>(&path("profile.age")), Some(StateValue::Number(255))));
    assert!(s.set::<i64>(&path("busy"), &StateValue::Bool(true)));
    assert!(matches!(s.get::<i64>(&path("busy")), Some(StateValue::Bool(true))));
}

#[test]
fn what_cannot_be_set_changes_nothing() {
    let mut s = profile();
    assert!(!s.set(&path("title"), &StateValue::Number(1i64)));
    assert!(!s.set::<i64>(&path("busy"), &StateValue::Str("yes".to_string())));
    assert_eq!(text_at(&s, "title"), Some("old".to_string()));
    for at in ["", "nope", "title.more", "profile", "profile.nope", "profile.name.more"] {
        assert!(s.get::<i64>(&path(at)).is_none());
        assert!(!s.set::<i64>(&path(at), &StateValue::Str("x".to_string())));
    }
    assert_eq!(text_at(&s, "profile.name"), Some("Ann".to_string()));
}
