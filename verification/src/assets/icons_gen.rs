//! Generates the icon archive's SVG sources from icon-set modules.
//!
//! A set is one generated JS module in which every icon is a
//! `module.exports.IconName = function IconName (props) { return
//! GenIcon({"tag":"svg","attr":{...},"child":[...]})(props); };` call. The
//! `GenIcon(...)` argument is a small JSON document, a `{tag, attr, child}` tree
//! with the structure of an SVG. [`parse_set`] scans a module line by line,
//! brace-matches that argument out ([`extract_json_arg`]), parses it, and writes
//! the tree as SVG text ([`render_svg`]).

use vstd::prelude::*;
use vstd::string::*;
use vstd::utf8::{
    decode_utf8, encode_utf8, encode_utf8_decode_utf8, encode_utf8_valid_utf8, is_char_boundary,
    valid_utf8,
};
use crate::assets::json::{
    get, lemma_member_index, member_index, parse_json, parsed_json, tree_get, tree_str,
    Json, JsonTree,
};
use crate::order::{law_order_of_is_stable, order_of, ranks, stable_order, str_rank};
use crate::text::{
    chars_of, find_match, first_match, match_at, matches_at, next_sep, str_eq, string_of_range,
    text_lines, text_lines_from,
};
use crate::toolkit::text_input::char_to_byte;

verus! {

// ---- attribute names and values ----

/// The attribute names that are written with capitals in a set's JSON, with
/// their SVG names.
pub open spec fn attr_names() -> Seq<(Seq<char>, Seq<char>)> {
    seq![
        ("clipRule"@, "clip-rule"@),
        ("fillRule"@, "fill-rule"@),
        ("fillOpacity"@, "fill-opacity"@),
        ("strokeWidth"@, "stroke-width"@),
        ("strokeLinecap"@, "stroke-linecap"@),
        ("strokeLinejoin"@, "stroke-linejoin"@),
        ("strokeMiterlimit"@, "stroke-miterlimit"@),
        ("strokeDasharray"@, "stroke-dasharray"@),
        ("strokeOpacity"@, "stroke-opacity"@),
        ("stopColor"@, "stop-color"@),
        ("stopOpacity"@, "stop-opacity"@),
    ]
}

/// `name` as `table` (from row `i` on) has it; a name it does not list stays as
/// it is.
pub open spec fn renamed(table: Seq<(Seq<char>, Seq<char>)>, i: int, name: Seq<char>) -> Seq<char>
    decreases table.len() - i,
{
    if 0 <= i < table.len() {
        if table[i].0 == name {
            table[i].1
        } else {
            renamed(table, i + 1, name)
        }
    } else {
        name
    }
}

/// The SVG name of an attribute.
pub open spec fn attr_name(name: Seq<char>) -> Seq<char> {
    renamed(attr_names(), 0, name)
}

/// The SVG name of an attribute: a presentation attribute written in camel case
/// is hyphenated, any other name is kept.
pub fn map_attr_name(name: &str) -> (r: String)
    ensures
        r@ == attr_name(name@),
{
    proof {
        reveal_with_fuel(renamed, 12);
    }
    if str_eq(name, "clipRule") {
        "clip-rule".to_owned()
    } else if str_eq(name, "fillRule") {
        "fill-rule".to_owned()
    } else if str_eq(name, "fillOpacity") {
        "fill-opacity".to_owned()
    } else if str_eq(name, "strokeWidth") {
        "stroke-width".to_owned()
    } else if str_eq(name, "strokeLinecap") {
        "stroke-linecap".to_owned()
    } else if str_eq(name, "strokeLinejoin") {
        "stroke-linejoin".to_owned()
    } else if str_eq(name, "strokeMiterlimit") {
        "stroke-miterlimit".to_owned()
    } else if str_eq(name, "strokeDasharray") {
        "stroke-dasharray".to_owned()
    } else if str_eq(name, "strokeOpacity") {
        "stroke-opacity".to_owned()
    } else if str_eq(name, "stopColor") {
        "stop-color".to_owned()
    } else if str_eq(name, "stopOpacity") {
        "stop-opacity".to_owned()
    } else {
        name.to_owned()
    }
}

/// One character of an attribute value, as XML has it.
pub open spec fn escaped_char(c: char) -> Seq<char> {
    if c == '&' {
        "&amp;"@
    } else if c == '"' {
        "&quot;"@
    } else if c == '<' {
        "&lt;"@
    } else if c == '>' {
        "&gt;"@
    } else {
        seq![c]
    }
}

/// An attribute value, as XML has it.
pub open spec fn escaped(cs: Seq<char>) -> Seq<char>
    decreases cs.len(),
{
    if cs.len() == 0 {
        Seq::empty()
    } else {
        escaped(cs.drop_last()) + escaped_char(cs.last())
    }
}

/// An attribute value with XML's special characters escaped.
pub fn escape_xml_attr(value: &str) -> (r: String)
    ensures
        r@ == escaped(value@),
{
    let cs: Vec<char> = chars_of(value);
    let mut out: String = String::new();
    let mut i: usize = 0;
    assert(cs@.take(0) =~= Seq::<char>::empty());
    while i < cs.len()
        invariant
            0 <= i <= cs@.len(),
            out@ == escaped(cs@.take(i as int)),
        decreases cs@.len() - i,
    {
        let c: char = cs[i];
        let ghost before = out@;
        if c == '&' {
            out.append("&amp;");
        } else if c == '"' {
            out.append("&quot;");
        } else if c == '<' {
            out.append("&lt;");
        } else if c == '>' {
            out.append("&gt;");
        } else {
            out.push(c);
        }
        proof {
            assert(out@ =~= before + escaped_char(c));
            assert(cs@.take(i + 1).drop_last() =~= cs@.take(i as int));
            assert(cs@.take(i + 1).last() == c);
        }
        i = i + 1;
    }
    assert(cs@.take(cs@.len() as int) =~= cs@);
    out
}

/// An escaped value can stand between quotes inside a tag: it holds no quote
/// and no angle bracket.
pub proof fn law_escaped_holds_no_markup(cs: Seq<char>)
    ensures
        forall|i: int|
            0 <= i < escaped(cs).len() ==> #[trigger] escaped(cs)[i] != '"' && escaped(cs)[i] != '<'
                && escaped(cs)[i] != '>',
    decreases cs.len(),
{
    reveal_strlit("&amp;");
    reveal_strlit("&quot;");
    reveal_strlit("&lt;");
    reveal_strlit("&gt;");
    if cs.len() > 0 {
        let head = escaped(cs.drop_last());
        let tail = escaped_char(cs.last());
        law_escaped_holds_no_markup(cs.drop_last());
        assert forall|i: int| 0 <= i < escaped(cs).len() implies #[trigger] escaped(cs)[i] != '"'
            && escaped(cs)[i] != '<' && escaped(cs)[i] != '>' by {
            if i < head.len() {
                assert(escaped(cs)[i] == head[i]);
            } else {
                assert(escaped(cs)[i] == tail[i - head.len()]);
            }
        }
    }
}

// ---- rendering ----

/// The attributes of a node: the members of its `attr` object.
pub open spec fn attrs_of(t: JsonTree) -> Seq<(Seq<char>, JsonTree)> {
    match tree_get(t, "attr"@) {
        Some(JsonTree::Object(members)) => members,
        _ => Seq::empty(),
    }
}

/// The tag of a node, if it has one.
pub open spec fn tag_of(t: JsonTree) -> Option<Seq<char>> {
    match tree_get(t, "tag"@) {
        Some(v) => tree_str(v),
        None => None,
    }
}

/// An attribute as it is written: its SVG name, and its value.
pub type Attr = (Seq<char>, Seq<char>);

/// Whether `written` holds the attribute `name`.
pub open spec fn holds_name(written: Seq<Attr>, name: Seq<char>) -> bool {
    exists|i: int| 0 <= i < written.len() && (#[trigger] written[i]).0 == name
}

/// Whether no attribute is written twice.
pub open spec fn names_differ(written: Seq<Attr>) -> bool {
    forall|i: int, j: int|
        0 <= i < j < written.len() ==> (#[trigger] written[i]).0 != (#[trigger] written[j]).0
}

/// Whether a node's own attributes define the SVG attribute `name`, under
/// whichever key.
pub open spec fn defines(attrs: Seq<(Seq<char>, JsonTree)>, name: Seq<char>) -> bool {
    exists|k: int| 0 <= k < attrs.len() && attr_name((#[trigger] attrs[k]).0) == name
}

/// The namespace and the drawing defaults of a root `svg`.
pub open spec fn svg_defaults() -> Seq<Attr> {
    seq![
        ("xmlns"@, "http://www.w3.org/2000/svg"@),
        ("fill"@, "currentColor"@),
        ("stroke"@, "currentColor"@),
        ("stroke-width"@, "0"@),
    ]
}

/// Those of the first `n` defaults that a root `svg` does not define itself.
pub open spec fn root_defaults(attrs: Seq<(Seq<char>, JsonTree)>, n: nat) -> Seq<Attr>
    decreases n,
{
    if n == 0 {
        Seq::empty()
    } else {
        let rest = root_defaults(attrs, (n - 1) as nat);
        if defines(attrs, svg_defaults()[n - 1].0) {
            rest
        } else {
            rest.push(svg_defaults()[n - 1])
        }
    }
}

/// The order of a node's attributes: by key.
pub open spec fn attr_order(members: Seq<(Seq<char>, JsonTree)>) -> Seq<int> {
    order_of(members.map_values(|m: (Seq<char>, JsonTree)| str_rank(m.0)), members.len())
}

/// What the first `n` attributes in that order write: one whose value is no
/// string is left out, and so is one whose SVG name is already there.
pub open spec fn own_attrs(members: Seq<(Seq<char>, JsonTree)>, n: nat) -> Seq<Attr>
    decreases n,
{
    if n == 0 {
        Seq::empty()
    } else {
        let rest = own_attrs(members, (n - 1) as nat);
        let member = members[attr_order(members)[n - 1]];
        match tree_str(member.1) {
            Some(v) => if holds_name(rest, attr_name(member.0)) {
                rest
            } else {
                rest.push((attr_name(member.0), v))
            },
            None => rest,
        }
    }
}

/// The attributes of a node with tag `tag`, as they are written: a root `svg`
/// has the defaults that it does not define itself, then come its own.
pub open spec fn start_attrs(tag: Seq<char>, attrs: Seq<(Seq<char>, JsonTree)>) -> Seq<Attr> {
    (if tag == "svg"@ {
        root_defaults(attrs, svg_defaults().len())
    } else {
        Seq::empty()
    }) + own_attrs(attrs, attrs.len())
}

/// One attribute as text.
pub open spec fn attr_text(a: Attr) -> Seq<char> {
    seq![' '] + a.0 + "=\""@ + escaped(a.1) + seq!['"']
}

/// The first `n` attributes as text.
pub open spec fn attrs_text(written: Seq<Attr>, n: nat) -> Seq<char>
    decreases n,
{
    if n == 0 {
        Seq::empty()
    } else {
        attrs_text(written, (n - 1) as nat) + attr_text(written[n - 1])
    }
}

/// A node's opening, up to its children: `<`, the tag, the attributes.
pub open spec fn opening(t: JsonTree, tag: Seq<char>) -> Seq<char> {
    let written = start_attrs(tag, attrs_of(t));
    seq!['<'] + tag + attrs_text(written, written.len())
}

/// The children of a node: the items of its `child` array.
pub open spec fn children_of(t: JsonTree) -> Seq<JsonTree> {
    match tree_get(t, "child"@) {
        Some(JsonTree::Array(items)) => items,
        _ => Seq::empty(),
    }
}

/// A tree as SVG text; nothing for a node without a tag.
pub open spec fn rendered(t: JsonTree) -> Seq<char>
    decreases t, 0nat,
    via rendered_decreases
{
    match tag_of(t) {
        Some(tag) => if children_of(t).len() > 0 {
            opening(t, tag) + seq!['>'] + rendered_upto(children_of(t), children_of(t).len())
                + "</"@ + tag + seq!['>']
        } else {
            opening(t, tag) + "/>"@
        },
        None => Seq::empty(),
    }
}

/// The first `n` of a list of trees, one after the other.
pub open spec fn rendered_upto(items: Seq<JsonTree>, n: nat) -> Seq<char>
    decreases items, n,
    via rendered_upto_decreases
{
    if 0 < n <= items.len() {
        rendered_upto(items, (n - 1) as nat) + rendered(items[n - 1])
    } else {
        Seq::empty()
    }
}

#[via_fn]
proof fn rendered_decreases(t: JsonTree) {
    if children_of(t).len() > 0 {
        let members = t->Object_0;
        lemma_member_index(members, "child"@, 0);
        let i = member_index(members, "child"@, 0)->0;
        assert(decreases_to!(members => members[i]));
        assert(members[i].1 == JsonTree::Array(children_of(t)));
        assert(decreases_to!(t => members));
        assert(decreases_to!(members[i] => members[i].1));
    }
}

#[via_fn]
proof fn rendered_upto_decreases(items: Seq<JsonTree>, n: nat) {
    if 0 < n <= items.len() {
        assert(decreases_to!(items => items[n - 1]));
    }
}

/// Attributes as they are written, by their views.
pub open spec fn attr_views(written: Seq<(String, String)>) -> Seq<Attr> {
    written.map_values(|a: (String, String)| (a.0@, a.1@))
}

/// The members of an object, by their views.
pub open spec fn member_views(members: Seq<(String, Json)>) -> Seq<(Seq<char>, JsonTree)> {
    members.map_values(|m: (String, Json)| (m.0@, m.1@))
}

/// Whether `written` holds the attribute `name`.
fn has_name(written: &Vec<(String, String)>, name: &str) -> (r: bool)
    ensures
        r == holds_name(attr_views(written@), name@),
{
    let mut i: usize = 0;
    while i < written.len()
        invariant
            0 <= i <= written@.len(),
            forall|k: int| 0 <= k < i ==> (#[trigger] attr_views(written@)[k]).0 != name@,
        decreases written@.len() - i,
    {
        assert(attr_views(written@)[i as int].0 == written@[i as int].0@);
        if str_eq(written[i].0.as_str(), name) {
            return true;
        }
        i = i + 1;
    }
    false
}

/// Whether a node's own attributes define the SVG attribute `name`.
fn defines_name(members: &Vec<(String, Json)>, name: &str) -> (r: bool)
    ensures
        r == defines(member_views(members@), name@),
{
    let ghost ms = member_views(members@);
    let mut i: usize = 0;
    while i < members.len()
        invariant
            0 <= i <= members@.len(),
            ms == member_views(members@),
            forall|k: int| 0 <= k < i ==> attr_name((#[trigger] ms[k]).0) != name@,
        decreases members@.len() - i,
    {
        assert(ms[i as int].0 == members@[i as int].0@);
        if str_eq(map_attr_name(members[i].0.as_str()).as_str(), name) {
            return true;
        }
        i = i + 1;
    }
    false
}

/// Adds a default that the node does not define itself.
fn push_default(
    members: &Vec<(String, Json)>,
    name: &str,
    value: &str,
    written: &mut Vec<(String, String)>,
)
    ensures
        attr_views(final(written)@) == if defines(member_views(members@), name@) {
            attr_views(old(written)@)
        } else {
            attr_views(old(written)@).push((name@, value@))
        },
{
    let ghost before = written@;
    if !defines_name(members, name) {
        written.push((name.to_owned(), value.to_owned()));
        assert(attr_views(written@) =~= attr_views(before).push((name@, value@)));
    }
}

/// The attributes of a node itself, sorted by key.
fn own_written(members: &Vec<(String, Json)>) -> (r: Vec<(String, String)>)
    ensures
        attr_views(r@) == own_attrs(member_views(members@), members@.len()),
{
    let ghost ms = member_views(members@);
    let mut keys: Vec<String> = Vec::new();
    let mut i: usize = 0;
    while i < members.len()
        invariant
            0 <= i <= members@.len(),
            keys@.len() == i,
            forall|k: int| 0 <= k < i ==> (#[trigger] keys@[k])@ == members@[k].0@,
        decreases members@.len() - i,
    {
        keys.push(members[i].0.clone());
        i = i + 1;
    }
    proof {
        assert(ranks(keys@) =~= ms.map_values(|m: (Seq<char>, JsonTree)| str_rank(m.0)));
    }
    let ord: Vec<usize> = stable_order(&keys);
    let mut out: Vec<(String, String)> = Vec::new();
    let mut n: usize = 0;
    assert(attr_views(out@) =~= own_attrs(ms, 0));
    while n < ord.len()
        invariant
            0 <= n <= ord@.len(),
            ord@.len() == members@.len(),
            ms == member_views(members@),
            ord@.map_values(|x: usize| x as int) == attr_order(ms),
            forall|k: int| 0 <= k < ord@.len() ==> (#[trigger] ord@[k]) < members@.len(),
            attr_views(out@) == own_attrs(ms, n as nat),
        decreases ord@.len() - n,
    {
        let at: usize = ord[n];
        let ghost before = out@;
        proof {
            assert(ord@.map_values(|x: usize| x as int)[n as int] == at as int);
            assert(ms[at as int] == (members@[at as int].0@, members@[at as int].1@));
        }
        if let Json::Str(v) = &members[at].1 {
            let name: String = map_attr_name(members[at].0.as_str());
            if !has_name(&out, name.as_str()) {
                let value: String = v.clone();
                out.push((name, value));
                assert(attr_views(out@) =~= attr_views(before).push((name@, value@)));
            }
        }
        n = n + 1;
        assert(attr_views(out@) == own_attrs(ms, n as nat));
    }
    out
}

/// Appends attributes as text.
fn render_attrs(written: &Vec<(String, String)>, out: &mut String)
    ensures
        final(out)@ == old(out)@ + attrs_text(attr_views(written@), written@.len()),
{
    let ghost start = out@;
    let ghost ws = attr_views(written@);
    let mut n: usize = 0;
    assert(out@ =~= start + attrs_text(ws, 0));
    while n < written.len()
        invariant
            0 <= n <= written@.len(),
            ws == attr_views(written@),
            out@ == start + attrs_text(ws, n as nat),
        decreases written@.len() - n,
    {
        let ghost before = out@;
        out.push(' ');
        out.append(written[n].0.as_str());
        out.append("=\"");
        out.append(escape_xml_attr(written[n].1.as_str()).as_str());
        out.push('"');
        proof {
            assert(ws[n as int] == (written@[n as int].0@, written@[n as int].1@));
            assert(out@ =~= before + attr_text(ws[n as int]));
        }
        n = n + 1;
        assert(out@ =~= start + attrs_text(ws, n as nat));
    }
}

/// The attributes of a node with tag `tag`, by their SVG names and values, in
/// the order in which they are written.
pub fn written_attrs(members: &Vec<(String, Json)>, tag: &str) -> (r: Vec<(String, String)>)
    ensures
        attr_views(r@) == start_attrs(tag@, member_views(members@)),
{
    let ghost ms = member_views(members@);
    let mut written: Vec<(String, String)> = Vec::new();
    assert(attr_views(written@) =~= root_defaults(ms, 0));
    if str_eq(tag, "svg") {
        push_default(members, "xmlns", "http://www.w3.org/2000/svg", &mut written);
        assert(attr_views(written@) == root_defaults(ms, 1));
        push_default(members, "fill", "currentColor", &mut written);
        assert(attr_views(written@) == root_defaults(ms, 2));
        push_default(members, "stroke", "currentColor", &mut written);
        assert(attr_views(written@) == root_defaults(ms, 3));
        push_default(members, "stroke-width", "0", &mut written);
        assert(attr_views(written@) == root_defaults(ms, 4));
    }
    let ghost head = written@;
    let mut own: Vec<(String, String)> = own_written(members);
    let ghost tail = own@;
    written.append(&mut own);
    assert(attr_views(written@) =~= attr_views(head) + attr_views(tail));
    written
}

/// Appends a node's opening, up to its children.
fn render_opening(node: &Json, tag: &str, out: &mut String)
    ensures
        final(out)@ == old(out)@ + opening(node@, tag@),
{
    let ghost start = out@;
    out.push('<');
    out.append(tag);
    let ghost head = out@;
    let none: Vec<(String, Json)> = Vec::new();
    let attrs: &Vec<(String, Json)> = match get(node, "attr") {
        Some(Json::Object(members)) => {
            assert(member_views(members@) =~= attrs_of(node@));
            members
        },
        _ => {
            assert(member_views(none@) =~= attrs_of(node@));
            &none
        },
    };
    let written: Vec<(String, String)> = written_attrs(attrs, tag);
    assert(attr_views(written@).len() == written@.len());
    render_attrs(&written, out);
    assert(out@ =~= start + opening(node@, tag@));
}

// ---- laws of the attributes ----

/// What `own_attrs` holds comes from a member with a string value; each of the
/// first `n` members in order with such a value has its name there; and no name
/// is there twice.
proof fn lemma_own_attrs(members: Seq<(Seq<char>, JsonTree)>, n: nat)
    requires
        n <= members.len(),
    ensures
        names_differ(own_attrs(members, n)),
        forall|i: int|
            0 <= i < own_attrs(members, n).len() ==> exists|k: int|
                0 <= k < members.len() && #[trigger] own_attrs(members, n)[i] == (
                    attr_name((#[trigger] members[k]).0),
                    tree_str(members[k].1)->0,
                ) && tree_str(members[k].1) is Some,
        forall|m: int|
            0 <= m < n && tree_str(members[#[trigger] attr_order(members)[m]].1) is Some
                ==> holds_name(
                own_attrs(members, n),
                attr_name(members[attr_order(members)[m]].0),
            ),
    decreases n,
{
    let keys = members.map_values(|m: (Seq<char>, JsonTree)| str_rank(m.0));
    law_order_of_is_stable(keys, members.len());
    if n > 0 {
        lemma_own_attrs(members, (n - 1) as nat);
        let rest = own_attrs(members, (n - 1) as nat);
        let all = own_attrs(members, n);
        let at = attr_order(members)[n - 1];
        let name = attr_name(members[at].0);
        assert(0 <= at < members.len());
        assert forall|x: Seq<char>| holds_name(rest, x) implies holds_name(all, x) by {
            let i = choose|i: int| 0 <= i < rest.len() && (#[trigger] rest[i]).0 == x;
            assert(all[i] == rest[i]);
        }
        if tree_str(members[at].1) is Some {
            if !holds_name(rest, name) {
                assert(all[rest.len() as int] == (name, tree_str(members[at].1)->0));
                assert(holds_name(all, name));
            }
        }
        assert forall|i: int| 0 <= i < all.len() implies exists|k: int|
            0 <= k < members.len() && #[trigger] all[i] == (
                attr_name((#[trigger] members[k]).0),
                tree_str(members[k].1)->0,
            ) && tree_str(members[k].1) is Some by {
            if i < rest.len() {
                assert(all[i] == rest[i]);
            } else {
                assert(all[i] == (name, tree_str(members[at].1)->0));
            }
        }
    }
}

/// What is among the first `n` defaults.
proof fn lemma_root_defaults(attrs: Seq<(Seq<char>, JsonTree)>, n: nat)
    requires
        n <= svg_defaults().len(),
    ensures
        names_differ(root_defaults(attrs, n)),
        forall|i: int|
            0 <= i < root_defaults(attrs, n).len() ==> exists|d: int|
                0 <= d < n && #[trigger] root_defaults(attrs, n)[i] == #[trigger] svg_defaults()[d]
                    && !defines(attrs, svg_defaults()[d].0),
        forall|d: int|
            0 <= d < n && !defines(attrs, (#[trigger] svg_defaults()[d]).0)
                ==> root_defaults(attrs, n).contains(svg_defaults()[d]),
    decreases n,
{
    reveal_strlit("xmlns");
    reveal_strlit("fill");
    reveal_strlit("stroke");
    reveal_strlit("stroke-width");
    if n > 0 {
        lemma_root_defaults(attrs, (n - 1) as nat);
        let rest = root_defaults(attrs, (n - 1) as nat);
        let all = root_defaults(attrs, n);
        let last = svg_defaults()[n - 1];
        assert forall|i: int| 0 <= i < all.len() implies exists|d: int|
            0 <= d < n && #[trigger] all[i] == #[trigger] svg_defaults()[d] && !defines(
                attrs,
                svg_defaults()[d].0,
            ) by {
            if i < rest.len() {
                assert(all[i] == rest[i]);
            } else {
                assert(all[i] == last);
            }
        }
        assert forall|d: int|
            0 <= d < n && !defines(attrs, (#[trigger] svg_defaults()[d]).0) implies all.contains(
            svg_defaults()[d],
        ) by {
            if d < n - 1 {
                let i = rest.index_of(svg_defaults()[d]);
                assert(all[i] == rest[i]);
            } else {
                assert(all[rest.len() as int] == last);
            }
        }
        assert forall|i: int, j: int| 0 <= i < j < all.len() implies (#[trigger] all[i]).0 != (
        #[trigger] all[j]).0 by {
            if j < rest.len() {
                assert(rest[i].0 != rest[j].0);
            } else {
                assert(all[j] == last);
                assert(all[i] == rest[i]);
                let d = choose|d: int|
                    0 <= d < n - 1 && rest[i] == #[trigger] svg_defaults()[d] && !defines(
                        attrs,
                        svg_defaults()[d].0,
                    );
                assert(svg_defaults()[d].0.len() != last.0.len());
            }
        }
    }
}

/// No tag holds an attribute twice: an XML parser would reject it.
pub proof fn law_no_attribute_twice(tag: Seq<char>, attrs: Seq<(Seq<char>, JsonTree)>)
    ensures
        names_differ(start_attrs(tag, attrs)),
{
    let own = own_attrs(attrs, attrs.len());
    let all = start_attrs(tag, attrs);
    lemma_own_attrs(attrs, attrs.len());
    if tag == "svg"@ {
        let roots = root_defaults(attrs, svg_defaults().len());
        lemma_root_defaults(attrs, svg_defaults().len());
        assert forall|i: int, j: int| 0 <= i < j < all.len() implies (#[trigger] all[i]).0 != (
        #[trigger] all[j]).0 by {
            if j < roots.len() {
                assert(roots[i].0 != roots[j].0);
            } else if i >= roots.len() {
                assert(own[i - roots.len()].0 != own[j - roots.len()].0);
            } else {
                assert(all[i] == roots[i]);
                assert(all[j] == own[j - roots.len()]);
            }
        }
    } else {
        assert(all =~= own);
    }
}

/// A root `svg` whose attributes are all strings holds the namespace and each of
/// the drawing attributes: with a value of its own where it defines one, and
/// with the default otherwise.
pub proof fn law_svg_holds_defaults(attrs: Seq<(Seq<char>, JsonTree)>, d: int)
    requires
        0 <= d < svg_defaults().len(),
        forall|k: int| 0 <= k < attrs.len() ==> tree_str((#[trigger] attrs[k]).1) is Some,
    ensures
        exists|i: int|
            0 <= i < start_attrs("svg"@, attrs).len() && (#[trigger] start_attrs(
                "svg"@,
                attrs,
            )[i]).0 == svg_defaults()[d].0,
        forall|i: int|
            0 <= i < start_attrs("svg"@, attrs).len() && (#[trigger] start_attrs(
                "svg"@,
                attrs,
            )[i]).0 == svg_defaults()[d].0 ==> if defines(attrs, svg_defaults()[d].0) {
                exists|k: int|
                    0 <= k < attrs.len() && attr_name((#[trigger] attrs[k]).0)
                        == svg_defaults()[d].0 && tree_str(attrs[k].1) == Some(
                        start_attrs("svg"@, attrs)[i].1,
                    )
            } else {
                start_attrs("svg"@, attrs)[i] == svg_defaults()[d]
            },
{
    let own = own_attrs(attrs, attrs.len());
    let all = start_attrs("svg"@, attrs);
    let roots = root_defaults(attrs, svg_defaults().len());
    let name = svg_defaults()[d].0;
    lemma_own_attrs(attrs, attrs.len());
    lemma_root_defaults(attrs, svg_defaults().len());
    law_no_attribute_twice("svg"@, attrs);
    if defines(attrs, name) {
        let k = choose|k: int| 0 <= k < attrs.len() && attr_name((#[trigger] attrs[k]).0) == name;
        let keys = attrs.map_values(|m: (Seq<char>, JsonTree)| str_rank(m.0));
        law_order_of_is_stable(keys, attrs.len());
        assert(attr_order(attrs).contains(k));
        let m = attr_order(attrs).index_of(k);
        assert(attr_order(attrs)[m] == k);
        assert(holds_name(own, name));
        let i = choose|i: int| 0 <= i < own.len() && (#[trigger] own[i]).0 == name;
        assert(all[roots.len() + i] == own[i]);
        assert forall|j: int| 0 <= j < all.len() && (#[trigger] all[j]).0 == name implies exists|
            k: int,
        |
            0 <= k < attrs.len() && attr_name((#[trigger] attrs[k]).0) == name && tree_str(
                attrs[k].1,
            ) == Some(all[j].1) by {
            if j < roots.len() {
                assert(all[j] == roots[j]);
            } else {
                assert(all[j] == own[j - roots.len()]);
            }
        }
    } else {
        let i = roots.index_of(svg_defaults()[d]);
        assert(roots.contains(svg_defaults()[d]));
        assert(all[i] == roots[i]);
    }
}

/// Appends the SVG text of a `{tag, attr, child}` tree.
pub fn render_node(node: &Json, out: &mut String)
    ensures
        final(out)@ == old(out)@ + rendered(node@),
    decreases node,
{
    let ghost start = out@;
    let tag: &str = match get(node, "tag") {
        Some(Json::Str(tag)) => tag.as_str(),
        _ => {
            assert(out@ =~= start + rendered(node@));
            return ;
        },
    };
    render_opening(node, tag, out);
    if let Some(Json::Array(kids)) = get(node, "child") {
        let ghost items = children_of(node@);
        if kids.len() > 0 {
            out.push('>');
            let ghost inner = out@;
            let mut k: usize = 0;
            assert(out@ =~= inner + rendered_upto(items, 0));
            while k < kids.len()
                invariant
                    0 <= k <= kids@.len(),
                    decreases_to!(*node => *kids),
                    items.len() == kids@.len(),
                    forall|i: int| 0 <= i < items.len() ==> #[trigger] items[i] == kids@[i]@,
                    out@ == inner + rendered_upto(items, k as nat),
                decreases kids@.len() - k,
            {
                render_node(&kids[k], out);
                assert(items[k as int] == kids@[k as int]@);
                k = k + 1;
                assert(out@ =~= inner + rendered_upto(items, k as nat));
            }
            out.append("</");
            out.append(tag);
            out.push('>');
            assert(out@ =~= start + rendered(node@));
            return ;
        }
    }
    out.append("/>");
    assert(out@ =~= start + rendered(node@));
}

/// The SVG text of a `{tag, attr, child}` tree.
pub fn render_svg(root: &Json) -> (r: String)
    ensures
        r@ == rendered(root@),
{
    let mut out: String = String::new();
    render_node(root, &mut out);
    assert(out@ =~= rendered(root@));
    out
}

// ---- brace matching ----

/// Where a scan of JSON text stands: how many braces are open, and whether it
/// is inside a string, right after a backslash.
pub struct Scan {
    pub depth: int,
    pub in_string: bool,
    pub after_backslash: bool,
}

/// The scan after one more byte. Braces inside strings do not count.
pub open spec fn scan_step(s: Scan, b: u8) -> Scan {
    if s.in_string {
        if s.after_backslash {
            Scan { after_backslash: false, ..s }
        } else if b == 0x5c {
            Scan { after_backslash: true, ..s }
        } else if b == 0x22 {
            Scan { in_string: false, ..s }
        } else {
            s
        }
    } else if b == 0x22 {
        Scan { in_string: true, ..s }
    } else if b == 0x7b {
        Scan { depth: s.depth + 1, ..s }
    } else if b == 0x7d {
        Scan { depth: s.depth - 1, ..s }
    } else {
        s
    }
}

/// The scan of the bytes from `start` up to `end`.
pub open spec fn scanned(bytes: Seq<u8>, start: int, end: int) -> Scan
    decreases end - start,
{
    if end <= start {
        Scan { depth: 0, in_string: false, after_backslash: false }
    } else {
        scan_step(scanned(bytes, start, end - 1), bytes[end - 1])
    }
}

/// The first position at or after `i` at which every brace opened since `start`
/// is closed.
pub open spec fn close_from(bytes: Seq<u8>, start: int, i: int) -> Option<int>
    decreases bytes.len() - i,
{
    if 0 <= i < bytes.len() {
        if scanned(bytes, start, i + 1).depth == 0 {
            Some(i)
        } else {
            close_from(bytes, start, i + 1)
        }
    } else {
        None
    }
}

/// The balanced `{...}` that starts at `start`, if one does.
pub open spec fn json_arg(bytes: Seq<u8>, start: int) -> Option<Seq<u8>> {
    if 0 <= start < bytes.len() && bytes[start] == 0x7b {
        match close_from(bytes, start, start) {
            Some(e) => Some(bytes.subrange(start, e + 1)),
            None => None,
        }
    } else {
        None
    }
}

/// The byte after an ASCII byte starts a character, or ends the text.
proof fn lemma_boundary_after_ascii(bytes: Seq<u8>, i: int)
    requires
        valid_utf8(bytes),
        0 <= i < bytes.len(),
        bytes[i] < 0x80,
    ensures
        is_char_boundary(bytes, i),
        is_char_boundary(bytes, i + 1),
    decreases bytes.len(),
{
    vstd::utf8::is_char_boundary_iff_is_leading_byte(bytes, i);
    let rest = vstd::utf8::pop_first_scalar(bytes);
    let n = vstd::utf8::length_of_first_scalar(bytes);
    if i == 0 {
        assert(is_char_boundary(rest, 0));
    } else {
        assert(is_char_boundary(rest, i - n));
        assert(rest[i - n] == bytes[i]);
        lemma_boundary_after_ascii(rest, i - n);
    }
}

/// The balanced `{...}` object that starts at byte `start` of `src`: braces are
/// matched up with regard to JSON strings and their escapes.
pub fn extract_json_arg(src: &str, start: usize) -> (r: Option<&str>)
    ensures
        match r {
            Some(s) => json_arg(encode_utf8(src@), start as int) == Some(encode_utf8(s@)),
            None => json_arg(encode_utf8(src@), start as int) is None,
        },
{
    let bytes: &[u8] = src.as_bytes();
    if start >= bytes.len() || bytes[start] != 0x7b {
        return None;
    }
    let mut depth: usize = 0;
    let mut in_string: bool = false;
    let mut escaped: bool = false;
    let mut i: usize = start;
    while i < bytes.len()
        invariant
            start <= i <= bytes@.len(),
            bytes@ == encode_utf8(src@),
            start < bytes@.len(),
            bytes@[start as int] == 0x7b,
            i == start ==> !in_string,
            i > start ==> depth > 0,
            depth <= i - start,
            scanned(bytes@, start as int, i as int) == (Scan {
                depth: depth as int,
                in_string,
                after_backslash: escaped,
            }),
            !in_string ==> !escaped,
            close_from(bytes@, start as int, i as int) == close_from(
                bytes@,
                start as int,
                start as int,
            ),
        decreases bytes@.len() - i,
    {
        let c: u8 = bytes[i];
        assert(scanned(bytes@, start as int, i + 1) == scan_step(
            scanned(bytes@, start as int, i as int),
            c,
        ));
        if in_string {
            if escaped {
                escaped = false;
            } else if c == 0x5c {
                escaped = true;
            } else if c == 0x22 {
                in_string = false;
            }
        } else if c == 0x22 {
            in_string = true;
        } else if c == 0x7b {
            depth = depth + 1;
        } else if c == 0x7d {
            depth = depth - 1;
            if depth == 0 {
                proof {
                    encode_utf8_valid_utf8(src@);
                    lemma_boundary_after_ascii(bytes@, start as int);
                }
                let (_, tail) = src.split_at(start);
                proof {
                    encode_utf8_valid_utf8(tail@);
                    assert(encode_utf8(tail@)[i - start] == c);
                    lemma_boundary_after_ascii(encode_utf8(tail@), i - start);
                }
                let (found, _) = tail.split_at(i - start + 1);
                assert(encode_utf8(found@) =~= bytes@.subrange(start as int, i + 1));
                return Some(found);
            }
        }
        i = i + 1;
    }
    None
}

/// What is extracted is balanced: it starts with `{`, closes every brace that it
/// opens outside strings, and no shorter text from there does.
pub proof fn law_extracted_is_balanced(bytes: Seq<u8>, start: int, i: int)
    requires
        0 <= start <= i,
    ensures
        match close_from(bytes, start, i) {
            Some(e) => i <= e < bytes.len() && scanned(bytes, start, e + 1).depth == 0
                && forall|j: int| i <= j < e ==> scanned(bytes, start, #[trigger] (j + 1)).depth != 0,
            None => forall|j: int|
                i <= j < bytes.len() ==> scanned(bytes, start, #[trigger] (j + 1)).depth != 0,
        },
    decreases bytes.len() - i,
{
    if i < bytes.len() && scanned(bytes, start, i + 1).depth != 0 {
        law_extracted_is_balanced(bytes, start, i + 1);
    }
}

// ---- icon sets ----

pub open spec fn export_prefix() -> Seq<char> {
    "module.exports."@
}

pub open spec fn call_text() -> Seq<char> {
    "GenIcon("@
}

/// The name that an export line gives: what stands between the prefix and the
/// next space.
pub open spec fn exported_name(line: Seq<char>) -> Option<Seq<char>> {
    if matches_at(line, 0, export_prefix()) {
        let rest = line.skip(export_prefix().len() as int);
        let e = next_sep(rest, 0, ' ');
        if e < rest.len() {
            Some(rest.take(e))
        } else {
            None
        }
    } else {
        None
    }
}

/// The SVG text of the icon whose generator call stands on `line`.
pub open spec fn icon_text(line: Seq<char>) -> Option<Seq<char>> {
    match first_match(line, 0, call_text()) {
        Some(c) => {
            let at = encode_utf8(line.take(c + call_text().len())).len();
            match json_arg(encode_utf8(line), at as int) {
                Some(arg) => match parsed_json(decode_utf8(arg)) {
                    Some(tree) => Some(rendered(tree)),
                    None => None,
                },
                None => None,
            }
        },
        None => None,
    }
}

/// The icon exported on line `k`, its call on the line after.
pub open spec fn icon_at(lines: Seq<Seq<char>>, k: int) -> Option<(Seq<char>, Seq<char>)> {
    match exported_name(lines[k]) {
        Some(name) => if k + 1 < lines.len() {
            match icon_text(lines[k + 1]) {
                Some(svg) => Some((name, svg)),
                None => None,
            }
        } else {
            None
        },
        None => None,
    }
}

/// The icons exported on the first `n` lines.
pub open spec fn icons_upto(lines: Seq<Seq<char>>, n: nat) -> Seq<(Seq<char>, Seq<char>)>
    decreases n,
{
    if n == 0 {
        Seq::empty()
    } else {
        let before = icons_upto(lines, (n - 1) as nat);
        match icon_at(lines, n - 1) {
            Some(icon) => before.push(icon),
            None => before,
        }
    }
}

/// The name that an export line gives.
fn name_on(line: &str) -> (r: Option<String>)
    ensures
        match r {
            Some(name) => exported_name(line@) == Some(name@),
            None => exported_name(line@) is None,
        },
{
    let cs: Vec<char> = chars_of(line);
    let prefix: Vec<char> = chars_of("module.exports.");
    if !match_at(&cs, 0, &prefix) {
        return None;
    }
    let from: usize = prefix.len();
    let ghost rest = line@.skip(from as int);
    let mut e: usize = from;
    while e < cs.len() && cs[e] != ' '
        invariant
            from <= e <= cs@.len(),
            cs@ == line@,
            rest == line@.skip(from as int),
            next_sep(rest, e - from, ' ') == next_sep(rest, 0, ' '),
        decreases cs@.len() - e,
    {
        assert(rest[e - from] == cs@[e as int]);
        e = e + 1;
    }
    if e >= cs.len() {
        return None;
    }
    assert(rest[e - from] == cs@[e as int]);
    assert(rest.take(e - from) =~= cs@.subrange(from as int, e as int));
    Some(string_of_range(&cs, from, e))
}

/// The SVG text of the icon whose generator call stands on `line`.
fn icon_on(line: &str) -> (r: Option<String>)
    ensures
        match r {
            Some(svg) => icon_text(line@) == Some(svg@),
            None => icon_text(line@) is None,
        },
{
    let cs: Vec<char> = chars_of(line);
    let call: Vec<char> = chars_of("GenIcon(");
    match find_match(&cs, &call) {
        Some(c) => {
            let total: usize = cs.len();
            assert(c + call@.len() <= total);
            let at: usize = char_to_byte(line, c + call.len());
            match extract_json_arg(line, at) {
                Some(text) => {
                    proof {
                        encode_utf8_decode_utf8(text@);
                    }
                    match parse_json(text) {
                        Some(tree) => Some(render_svg(&tree)),
                        None => None,
                    }
                },
                None => None,
            }
        },
        None => None,
    }
}

/// The icons of a set's module: `(name, svg_text)` pairs, in the module's order.
/// An export without a call that can be read on the line after it is passed over.
pub fn parse_set(js: &str) -> (r: Vec<(String, String)>)
    ensures
        r@.map_values(|p: (String, String)| (p.0@, p.1@)) == icons_upto(
            text_lines_from(js@, 0),
            text_lines_from(js@, 0).len(),
        ),
{
    let lines: Vec<String> = text_lines(js);
    let ghost ls = text_lines_from(js@, 0);
    let mut out: Vec<(String, String)> = Vec::new();
    let mut k: usize = 0;
    assert(out@.map_values(|p: (String, String)| (p.0@, p.1@)) =~= icons_upto(ls, 0));
    while k < lines.len()
        invariant
            0 <= k <= lines@.len(),
            lines@.map_values(|l: String| l@) == ls,
            out@.map_values(|p: (String, String)| (p.0@, p.1@)) == icons_upto(ls, k as nat),
        decreases lines@.len() - k,
    {
        let ghost before = out@.map_values(|p: (String, String)| (p.0@, p.1@));
        assert(ls[k as int] == lines@[k as int]@);
        if let Some(name) = name_on(lines[k].as_str()) {
            if k + 1 < lines.len() {
                assert(ls[k + 1] == lines@[k + 1]@);
                if let Some(svg) = icon_on(lines[k + 1].as_str()) {
                    let ghost icon = (name@, svg@);
                    out.push((name, svg));
                    assert(out@.map_values(|p: (String, String)| (p.0@, p.1@)) =~= before.push(
                        icon,
                    ));
                }
            }
        }
        k = k + 1;
    }
    out
}

} // verus!
