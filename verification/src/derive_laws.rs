//! What the arms of a state struct come to.
use vstd::prelude::*;

use crate::derive::{
    bare_name, call_from, call_list, kind_of, methods_in, methods_of, names_in, nested_names, Attr,
    AttrEntry, DeriveError, Field, ScalarKind,
};

verus! {

/// The names of the types of numbers: integers of every width, and floats.
pub open spec fn number_types() -> Seq<Seq<char>> {
    seq![
        "i8"@, "i16"@, "i32"@, "i64"@, "i128"@, "isize"@,
        "u8"@, "u16"@, "u32"@, "u64"@, "u128"@, "usize"@,
        "f32"@, "f64"@,
    ]
}

/// Texts, truth values and numbers are leaves, told apart by the bare name of the
/// type; every other type is a nested state, one that is written out with a path too.
pub proof fn law_leaf_types(t: Seq<char>, ty: Option<Vec<String>>)
    ensures
        kind_of(Some(t)) == Some(ScalarKind::Str) <==> t == "String"@,
        kind_of(Some(t)) == Some(ScalarKind::Bool) <==> t == "bool"@,
        kind_of(Some(t)) == Some(ScalarKind::Number) <==> number_types().contains(t),
        ty matches Some(path) ==> (path@.len() != 1 ==> kind_of(bare_name(ty)) is None),
        ty matches Some(path) ==> (path@.len() == 1 ==> kind_of(bare_name(ty)) == kind_of(
            Some(path@[0]@),
        )),
        ty is None ==> kind_of(bare_name(ty)) is None,
{
    reveal_strlit("String");
    reveal_strlit("bool");
    let ns = number_types();
    lemma_number_names();
    if ns.contains(t) {
        let k = choose|k: int| 0 <= k < ns.len() && ns[k] == t;
        assert(ns[k][0] != 'S' && ns[k][0] != 'b');
    }
    assert("String"@[0] == 'S');
    assert("bool"@[0] == 'b');
    assert(ns[0] == "i8"@ && ns[1] == "i16"@ && ns[2] == "i32"@ && ns[3] == "i64"@ && ns[4]
        == "i128"@ && ns[5] == "isize"@);
    assert(ns[6] == "u8"@ && ns[7] == "u16"@ && ns[8] == "u32"@ && ns[9] == "u64"@ && ns[10]
        == "u128"@ && ns[11] == "usize"@);
    assert(ns[12] == "f32"@ && ns[13] == "f64"@);
}

proof fn lemma_number_names()
    ensures
        forall|k: int|
            0 <= k < number_types().len() ==> (#[trigger] number_types()[k])[0] != 'S'
                && number_types()[k][0] != 'b',
{
    reveal_strlit("i8");
    reveal_strlit("i16");
    reveal_strlit("i32");
    reveal_strlit("i64");
    reveal_strlit("i128");
    reveal_strlit("isize");
    reveal_strlit("u8");
    reveal_strlit("u16");
    reveal_strlit("u32");
    reveal_strlit("u64");
    reveal_strlit("u128");
    reveal_strlit("usize");
    reveal_strlit("f32");
    reveal_strlit("f64");
    assert("i8"@[0] == 'i' && "i16"@[0] == 'i' && "i32"@[0] == 'i' && "i64"@[0] == 'i' && "i128"@[0]
        == 'i' && "isize"@[0] == 'i');
    assert("u8"@[0] == 'u' && "u16"@[0] == 'u' && "u32"@[0] == 'u' && "u64"@[0] == 'u' && "u128"@[0]
        == 'u' && "usize"@[0] == 'u');
    assert("f32"@[0] == 'f' && "f64"@[0] == 'f');
}

/// Whether an entry is well-formed, and lists `names`.
pub open spec fn lists(entry: AttrEntry, names: Seq<Seq<char>>) -> bool {
    &&& entry.name@ == "methods"@
    &&& entry.inner@.len() == names.len()
    &&& forall|k: int|
        0 <= k < names.len() ==> (#[trigger] entry.inner@[k] matches Some(s) && s@ == names[k])
}

proof fn lemma_names_prefix(inner: Seq<Option<String>>, names: Seq<Seq<char>>, n: nat)
    requires
        n <= inner.len() == names.len(),
        forall|k: int|
            0 <= k < names.len() ==> (#[trigger] inner[k] matches Some(s) && s@ == names[k]),
    ensures
        names_in(inner, n) == Ok::<Seq<Seq<char>>, DeriveError>(names.take(n as int)),
    decreases n,
{
    if n > 0 {
        lemma_names_prefix(inner, names, (n - 1) as nat);
        assert(inner[n - 1] is Some);
        assert(names.take(n as int) =~= names.take(n - 1).push(names[n - 1]));
    } else {
        assert(names.take(0) =~= Seq::<Seq<char>>::empty());
    }
}

proof fn lemma_entries_prefix(entries: Seq<AttrEntry>, e: AttrEntry, n: nat)
    requires
        n <= entries.len(),
    ensures
        methods_in(entries.push(e), n) == methods_in(entries, n),
    decreases n,
{
    if n > 0 {
        lemma_entries_prefix(entries, e, (n - 1) as nat);
    }
}

proof fn lemma_attrs_prefix(attrs: Seq<Attr>, a: Attr, n: nat)
    requires
        n <= attrs.len(),
    ensures
        methods_of(attrs.push(a), n) == methods_of(attrs, n),
    decreases n,
{
    if n > 0 {
        lemma_attrs_prefix(attrs, a, (n - 1) as nat);
    }
}

/// An entry adds the names that it lists behind those before it. One of another name
/// is refused, and so is one that lists something else than a name; what was refused
/// before stays so.
pub proof fn law_entry_adds_its_methods(
    entries: Seq<AttrEntry>,
    e: AttrEntry,
    names: Seq<Seq<char>>,
    k: int,
)
    ensures
        ({
            let before = methods_in(entries, entries.len());
            let after = methods_in(entries.push(e), entries.len() + 1);
            &&& before is Err ==> after == before
            &&& before is Ok && lists(e, names) ==> after == Ok::<Seq<Seq<char>>, DeriveError>(
                before->Ok_0 + names,
            )
            &&& before is Ok && e.name@ != "methods"@ ==> after == Err::<Seq<Seq<char>>, _>(
                DeriveError::UnknownEntry,
            )
            &&& before is Ok && e.name@ == "methods"@ && 0 <= k < e.inner@.len() && e.inner@[k] is None
                ==> after == Err::<Seq<Seq<char>>, _>(DeriveError::MethodName)
        }),
{
    lemma_entries_prefix(entries, e, entries.len());
    assert(entries.push(e)[entries.len() as int] == e);
    if lists(e, names) {
        lemma_names_prefix(e.inner@, names, names.len());
        assert(names.take(names.len() as int) =~= names);
    }
    if 0 <= k < e.inner@.len() && e.inner@[k] is None {
        lemma_no_name(e.inner@, k, e.inner@.len());
    }
}

proof fn lemma_no_name(inner: Seq<Option<String>>, k: int, n: nat)
    requires
        0 <= k < n <= inner.len(),
        inner[k] is None,
    ensures
        names_in(inner, n) == Err::<Seq<Seq<char>>, _>(DeriveError::MethodName),
    decreases n,
{
    if k < n - 1 {
        lemma_no_name(inner, k, (n - 1) as nat);
    } else {
        lemma_only_name_errors(inner, (n - 1) as nat);
    }
}

proof fn lemma_only_name_errors(inner: Seq<Option<String>>, n: nat)
    ensures
        names_in(inner, n) matches Err(e) ==> e == DeriveError::MethodName,
    decreases n,
{
    if n > 0 {
        lemma_only_name_errors(inner, (n - 1) as nat);
    }
}

/// An attribute of this derive adds its methods behind those of the attributes before
/// it, and any other attribute is passed over, whatever it holds.
pub proof fn law_attribute_adds_its_methods(attrs: Seq<Attr>, a: Attr)
    ensures
        ({
            let before = methods_of(attrs, attrs.len());
            let own = methods_in(a.entries@, a.entries@.len());
            let after = methods_of(attrs.push(a), attrs.len() + 1);
            &&& before is Err || !a.is_nowui ==> after == before
            &&& before is Ok && a.is_nowui && own is Ok ==> after == Ok::<
                Seq<Seq<char>>,
                DeriveError,
            >(before->Ok_0 + own->Ok_0)
            &&& before is Ok && a.is_nowui && own is Err ==> after == own
        }),
{
    lemma_attrs_prefix(attrs, a, attrs.len());
    assert(attrs.push(a)[attrs.len() as int] == a);
}

proof fn lemma_nested_prefix(fields: Seq<Field>, f: Field, n: nat)
    requires
        n <= fields.len(),
    ensures
        nested_names(fields.push(f), n) == nested_names(fields, n),
    decreases n,
{
    if n > 0 {
        lemma_nested_prefix(fields, f, (n - 1) as nat);
    }
}

/// A call goes to the nested states first, in the order of the fields, and then to the
/// methods, in the order in which they are listed; leaves take none.
pub proof fn law_calls_go_to_states_then_methods(
    fields: Seq<Field>,
    f: Field,
    methods: Seq<Seq<char>>,
    m: Seq<char>,
)
    ensures
        call_list(Seq::<Field>::empty(), Seq::<Seq<char>>::empty()).len() == 0,
        call_list(fields, methods.push(m)) == call_list(fields, methods).push((true, m)),
        call_list(fields.push(f), Seq::<Seq<char>>::empty()) == if kind_of(
            bare_name(f.ty),
        ) is None {
            call_list(fields, Seq::<Seq<char>>::empty()).push((false, f.name@))
        } else {
            call_list(fields, Seq::<Seq<char>>::empty())
        },
{
    let none = Seq::<Seq<char>>::empty();
    assert(call_list(fields, methods.push(m)) =~= call_list(fields, methods).push((true, m)));
    lemma_nested_prefix(fields, f, fields.len());
    assert(fields.push(f)[fields.len() as int] == f);
    if kind_of(bare_name(f.ty)) is None {
        assert(call_list(fields.push(f), none) =~= call_list(fields, none).push((false, f.name@)));
    } else {
        assert(call_list(fields.push(f), none) =~= call_list(fields, none));
    }
}

/// With distinct names, a method is called by its name alone, a nested state by every
/// path that starts with its name, and nothing else reaches them.
pub proof fn law_calls_are_reached_by_name(
    arms: Seq<(bool, Seq<char>)>,
    path: Seq<Seq<char>>,
    i: int,
    from: int,
)
    requires
        0 <= from <= i < arms.len(),
        forall|a: int, b: int|
            0 <= a < b < arms.len() ==> (#[trigger] arms[a]).1 != (#[trigger] arms[b]).1,
    ensures
        call_from(arms, path, from) == Some(i) <==> (path.len() > 0 && path[0] == arms[i].1 && (
        !arms[i].0 || path.len() == 1)),
    decreases i - from,
{
    if from < i {
        law_calls_are_reached_by_name(arms, path, i, from + 1);
        assert(arms[from].1 != arms[i].1);
    } else {
        lemma_call_range(arms, path, from + 1);
    }
}

proof fn lemma_call_range(arms: Seq<(bool, Seq<char>)>, path: Seq<Seq<char>>, i: int)
    requires
        0 <= i,
    ensures
        call_from(arms, path, i) matches Some(k) ==> i <= k < arms.len(),
    decreases arms.len() - i,
{
    if i < arms.len() {
        lemma_call_range(arms, path, i + 1);
    }
}

} // verus!
