//! What holds of the advertised tools and of their names on the wire.

use std::collections::hash_map::DefaultHasher;

use vstd::prelude::*;
use vstd::std_specs::hash::DefaultHasherAdditionalSpecFns;

use crate::error::{refusal, ErrorView};
use crate::history::{byte_count, declares_tools, string_view};
use crate::json::{lemma_alike, lemma_all_alike, JsonView};
use crate::request::{
    declared_view, definition_of, described, encode_view, is_custom, DeclaredView, DefinitionView,
};
use crate::tools::{
    alias, flat_name, hashed, hex, hex_digit, is_plain, is_wire_name, registered, registration, ToolView,
    MAX_NAME,
};

verus! {

/// Whether a character is a hexadecimal digit.
pub open spec fn is_digit(c: char) -> bool {
    '0' <= c <= '9' || 'a' <= c <= 'f'
}

/// The number that a hexadecimal digit stands for.
pub open spec fn digit_value(c: char) -> int {
    if '0' <= c <= '9' {
        c as int - '0' as int
    } else {
        c as int - 'a' as int + 10
    }
}

/// The number that hexadecimal digits stand for.
pub open spec fn digits_value(digits: Seq<char>) -> int
    decreases digits.len(),
{
    if digits.len() == 0 {
        0
    } else {
        digits_value(digits.drop_last()) * 16 + digit_value(digits.last())
    }
}

/// How many numbers so many hexadecimal digits can stand for.
spec fn power_of_sixteen(digits: nat) -> int
    decreases digits,
{
    if digits == 0 {
        1
    } else {
        power_of_sixteen((digits - 1) as nat) * 16
    }
}

proof fn lemma_hex_digit(n: int)
    ensures
        hex_digit(n).len() == 1,
        is_plain(hex_digit(n)[0]),
        is_digit(hex_digit(n)[0]),
        0 <= n < 16 ==> digit_value(hex_digit(n)[0]) == n,
{
    reveal_strlit("0");
    reveal_strlit("1");
    reveal_strlit("2");
    reveal_strlit("3");
    reveal_strlit("4");
    reveal_strlit("5");
    reveal_strlit("6");
    reveal_strlit("7");
    reveal_strlit("8");
    reveal_strlit("9");
    reveal_strlit("a");
    reveal_strlit("b");
    reveal_strlit("c");
    reveal_strlit("d");
    reveal_strlit("e");
    reveal_strlit("f");
}

proof fn lemma_hex(n: int, digits: nat)
    ensures
        hex(n, digits).len() == digits,
        forall|i: int|
            0 <= i < digits ==> is_plain(#[trigger] hex(n, digits)[i]) && is_digit(hex(n, digits)[i]),
        0 <= n < power_of_sixteen(digits) ==> digits_value(hex(n, digits)) == n,
    decreases digits,
{
    if digits > 0 {
        lemma_hex(n / 16, (digits - 1) as nat);
        lemma_hex_digit(n % 16);
        assert(hex(n, digits).drop_last() =~= hex(n / 16, (digits - 1) as nat));
        assert(hex(n, digits).last() == hex_digit(n % 16)[0]);
        assert forall|i: int| 0 <= i < digits implies is_plain(#[trigger] hex(n, digits)[i]) && is_digit(
            hex(n, digits)[i],
        ) by {
            if i < digits - 1 {
                assert(hex(n, digits)[i] == hex(n / 16, (digits - 1) as nat)[i]);
            } else {
                assert(hex(n, digits)[i] == hex_digit(n % 16)[0]);
            }
        }
    }
}

/// A name of plain characters has one byte for each.
proof fn lemma_plain_bytes(name: Seq<char>)
    requires
        forall|i: int| 0 <= i < name.len() ==> is_plain(#[trigger] name[i]),
    ensures
        byte_count(name) == name.len(),
{
    vstd::utf8::is_ascii_chars_encode_utf8(name);
}

/// Every tool has a name on the wire that every provider takes: at most 64 bytes,
/// all of them letters, digits, underscores and hyphens.
pub proof fn every_alias_is_a_wire_name(tool: ToolView)
    ensures
        is_wire_name(alias(tool)),
        byte_count(alias(tool)) <= MAX_NAME,
        flat_name(tool).len() > 0 ==> alias(tool).len() > 0,
{
    let flat = flat_name(tool);
    if !is_wire_name(flat) {
        let hash = DefaultHasher::spec_finish(hashed(tool)) as int;
        reveal_strlit("tool_");
        lemma_hex(hash, 16);
        assert forall|i: int| 0 <= i < alias(tool).len() implies is_plain(#[trigger] alias(tool)[i]) by {
            if i >= 5 {
                assert(alias(tool)[i] == hex(hash, 16)[i - 5]);
            } else {
                assert(alias(tool)[i] == "tool_"@[i]);
            }
        }
    }
    lemma_plain_bytes(alias(tool));
}

/// A tool whose flat name every provider takes keeps it.
pub proof fn wire_names_are_kept(tool: ToolView)
    requires
        is_wire_name(flat_name(tool)),
    ensures
        alias(tool) == flat_name(tool),
{
}

/// Whether a text is made of ASCII letters, digits, underscores and hyphens alone.
pub open spec fn is_simple(text: Seq<char>) -> bool {
    forall|i: int|
        0 <= i < text.len() ==> {
            ||| 'a' <= #[trigger] text[i] <= 'z'
            ||| 'A' <= text[i] <= 'Z'
            ||| '0' <= text[i] <= '9'
            ||| text[i] == '_'
            ||| text[i] == '-'
        }
}

/// A simple name of at most 64 characters is advertised as it is; in a namespace, with
/// the namespace before it. Any other name is advertised as a hash of the tool, in
/// sixteen hexadecimal digits after a prefix.
pub proof fn simple_names_are_kept(tool: ToolView)
    ensures
        ({
            let full = match tool.namespace {
                Some(namespace) => namespace + "__"@ + tool.name,
                None => tool.name,
            };
            if is_simple(full) && full.len() <= 64 {
                alias(tool) == full
            } else {
                &&& alias(tool).len() == 21
                &&& alias(tool).take(5) == "tool_"@
                &&& forall|i: int| 5 <= i < 21 ==> is_digit(#[trigger] alias(tool)[i])
                &&& digits_value(alias(tool).skip(5)) == DefaultHasher::spec_finish(hashed(tool))
            }
        }),
{
    let full = flat_name(tool);
    assert(is_simple(full) && full.len() <= 64 <==> is_wire_name(full)) by {
        if is_wire_name(full) {
            assert forall|i: int| 0 <= i < full.len() implies {
                ||| 'a' <= #[trigger] full[i] <= 'z'
                ||| 'A' <= full[i] <= 'Z'
                ||| '0' <= full[i] <= '9'
                ||| full[i] == '_'
                ||| full[i] == '-'
            } by {
                assert(is_plain(full[i]));
            }
        }
    }
    if !is_wire_name(full) {
        let digits = hex(DefaultHasher::spec_finish(hashed(tool)) as int, 16);
        reveal_strlit("tool_");
        assert("tool_"@.len() == 5);
        lemma_hex(DefaultHasher::spec_finish(hashed(tool)) as int, 16);
        reveal_with_fuel(power_of_sixteen, 17);
        assert(alias(tool).take(5) =~= "tool_"@);
        assert(alias(tool).skip(5) =~= digits);
        assert forall|i: int| 5 <= i < 21 implies is_digit(#[trigger] alias(tool)[i]) by {
            assert(alias(tool)[i] == digits[i - 5]);
        }
    }
}

/// What is hashed of a tool tells it from every other.
pub proof fn tools_are_hashed_whole(a: ToolView, b: ToolView)
    ensures
        hashed(a) == hashed(b) <==> a == b,
{
    let x = hashed(a);
    let y = hashed(b);
    if x == y {
        vstd::utf8::encode_utf8_decode_utf8(a.name);
        vstd::utf8::encode_utf8_decode_utf8(b.name);
        assert(x[0] == vstd::utf8::encode_utf8(a.name));
        assert(y[0] == vstd::utf8::encode_utf8(b.name));
        let last = x.len() - 1;
        assert(x[last] == seq![if a.custom { 1u8 } else { 0u8 }]);
        assert(y[last] == seq![if b.custom { 1u8 } else { 0u8 }]);
        assert(x[last][0] == y[last][0]);
        if let (Some(first), Some(second)) = (a.namespace, b.namespace) {
            vstd::utf8::encode_utf8_decode_utf8(first);
            vstd::utf8::encode_utf8_decode_utf8(second);
            assert(x[3] == vstd::utf8::encode_utf8(first));
            assert(y[3] == vstd::utf8::encode_utf8(second));
        }
        assert(x.len() == y.len());
    }
}

/// A tool that was registered is found again, whole, under the name that it was
/// given, and no other name changes what it stands for.
pub proof fn registered_tools_are_found(table: Map<Seq<char>, ToolView>, tool: ToolView, name: Seq<char>)
    requires
        registration(table, tool) == Ok::<Seq<char>, ErrorView>(name),
    ensures
        registered(table, tool).dom() == table.dom().insert(name),
        registered(table, tool)[name] == tool,
        forall|other: Seq<char>|
            other != name && #[trigger] table.dom().contains(other) ==> registered(table, tool)[other]
                == table[other],
{
}

/// Two tools that would have one name on the wire are not both registered: the
/// second one is refused.
pub proof fn collisions_are_refused(table: Map<Seq<char>, ToolView>, first: ToolView, second: ToolView)
    requires
        flat_name(first).len() > 0,
        flat_name(second).len() > 0,
        alias(first) == alias(second),
        first != second,
    ensures
        registration(registered(table, first), second) == Err::<Seq<char>, ErrorView>(
            refusal("flattened tool names collide"@),
        ),
{
}

/// What holds of declared tools: each name is the one that its tool has on the
/// wire, and each has exactly one definition.
pub open spec fn is_consistent(declared: DeclaredView) -> bool {
    &&& forall|name: Seq<char>| #[trigger]
        declared.table.dom().contains(name) ==> alias(declared.table[name]) == name && name.len() > 0
    &&& forall|i: int|
        0 <= i < declared.definitions.len() ==> declared.table.dom().contains(
            (#[trigger] declared.definitions[i]).name,
        )
    &&& forall|name: Seq<char>| #[trigger]
        declared.table.dom().contains(name) ==> exists|i: int|
            0 <= i < declared.definitions.len() && (#[trigger] declared.definitions[i]).name == name
    &&& forall|i: int, j: int|
        0 <= i < j < declared.definitions.len() ==> (#[trigger] declared.definitions[i]).name != (
        #[trigger] declared.definitions[j]).name
}

proof fn lemma_definition_of(definitions: Seq<DefinitionView>, name: Seq<char>)
    ensures
        definition_of(definitions, name) is None ==> forall|i: int|
            0 <= i < definitions.len() ==> (#[trigger] definitions[i]).name != name,
        definition_of(definitions, name) is Some ==> exists|i: int|
            0 <= i < definitions.len() && (#[trigger] definitions[i]).name == name,
    decreases definitions.len(),
{
    if definitions.len() > 0 {
        let rest = definitions.drop_last();
        lemma_definition_of(rest, name);
        if definitions.last().name == name {
            assert(definitions[definitions.len() - 1].name == name);
        } else {
            assert forall|i: int| 0 <= i < definitions.len() && definition_of(definitions, name) is None implies (
            #[trigger] definitions[i]).name != name by {
                if i < rest.len() {
                    assert(rest[i].name != name);
                }
            }
            if definition_of(definitions, name) is Some {
                let i = choose|i: int| 0 <= i < rest.len() && (#[trigger] rest[i]).name == name;
                assert(definitions[i].name == name);
            }
        }
    }
}

proof fn lemma_declare(declared: DeclaredView, namespace: Option<Seq<char>>, spec: JsonView)
    requires
        is_consistent(declared),
    ensures
        declared.declare(namespace, spec) matches Ok(after) ==> is_consistent(after),
{
    if let Ok(after) = declared.declare(namespace, spec) {
        let custom = is_custom(spec)->Ok_0;
        let tool = ToolView {
            name: string_view(spec, "name"@)->Ok_0,
            namespace,
            custom,
        };
        let wire = alias(tool);
        every_alias_is_a_wire_name(tool);
        lemma_definition_of(declared.definitions, wire);
        assert forall|name: Seq<char>| #[trigger] after.table.dom().contains(name) implies exists|i: int|
            0 <= i < after.definitions.len() && (#[trigger] after.definitions[i]).name == name by {
            if declared.table.dom().contains(name) {
                let i = choose|i: int|
                    0 <= i < declared.definitions.len() && (#[trigger] declared.definitions[i]).name == name;
                assert(after.definitions[i].name == name);
            } else {
                assert(name == wire);
                if definition_of(declared.definitions, wire) is Some {
                    let i = choose|i: int|
                        0 <= i < declared.definitions.len() && (#[trigger] declared.definitions[i]).name
                            == wire;
                    assert(after.definitions[i].name == name);
                } else {
                    assert(after.definitions[after.definitions.len() - 1].name == wire);
                }
            }
        }
        assert forall|i: int| 0 <= i < after.definitions.len() implies after.table.dom().contains(
            (#[trigger] after.definitions[i]).name,
        ) by {
            if i < declared.definitions.len() {
                assert(after.definitions[i] == declared.definitions[i]);
            }
        }
        assert forall|i: int, j: int| 0 <= i < j < after.definitions.len() implies (
        #[trigger] after.definitions[i]).name != (#[trigger] after.definitions[j]).name by {
            assert(after.definitions[i] == declared.definitions[i]);
            if j < declared.definitions.len() {
                assert(after.definitions[j] == declared.definitions[j]);
            }
        }
    }
}

proof fn lemma_declare_all(declared: DeclaredView, namespace: Option<Seq<char>>, specs: Seq<JsonView>)
    requires
        is_consistent(declared),
    ensures
        declared.declare_all(namespace, specs) matches Ok(after) ==> is_consistent(after),
    decreases specs.len(),
{
    if specs.len() > 0 {
        lemma_declare_all(declared, namespace, specs.drop_last());
        if let Ok(before) = declared.declare_all(namespace, specs.drop_last()) {
            lemma_declare(before, namespace, specs.last());
        }
    }
}

proof fn lemma_declare_specs(declared: DeclaredView, specs: Seq<JsonView>)
    requires
        is_consistent(declared),
    ensures
        declared.declare_specs(specs) matches Ok(after) ==> is_consistent(after),
    decreases specs.len(),
{
    if specs.len() > 0 {
        lemma_declare_specs(declared, specs.drop_last());
        if let Ok(before) = declared.declare_specs(specs.drop_last()) {
            let spec = specs.last();
            lemma_declare(before, None, spec);
            if let JsonView::Array(children) = spec.field("tools"@) {
                if let Ok(namespace) = string_view(spec, "name"@) {
                    lemma_declare_all(before, Some(namespace), children);
                }
            }
        }
    }
}

proof fn lemma_declare_items(declared: DeclaredView, items: Seq<JsonView>)
    requires
        is_consistent(declared),
    ensures
        declared.declare_items(items) matches Ok(after) ==> is_consistent(after),
    decreases items.len(),
{
    if items.len() > 0 {
        lemma_declare_items(declared, items.drop_last());
        if let Ok(before) = declared.declare_items(items.drop_last()) {
            if declares_tools(items.last()) {
                lemma_declare_specs(before, items.last().field("tools"@)->Array_0);
            }
        }
    }
}

/// The tools that a request declares have the names that they have on the wire, and
/// each is described exactly once, however often it was declared.
pub proof fn declared_tools_are_consistent(request: JsonView)
    ensures
        declared_view(request) matches Ok(declared) ==> is_consistent(declared),
{
    let none = DeclaredView::none();
    assert(is_consistent(none));
    if let JsonView::Array(specs) = request.field("tools"@) {
        lemma_declare_specs(none, specs);
    }
    if let JsonView::Array(items) = request.field("input"@) {
        let listed = match request.field("tools"@) {
            JsonView::Array(specs) => none.declare_specs(specs),
            _ => Ok(none),
        };
        if let Ok(declared) = listed {
            lemma_declare_items(declared, items);
        }
    }
}

/// The items of a history that declare tools.
pub open spec fn declarations(items: Seq<JsonView>) -> Seq<JsonView>
    decreases items.len(),
{
    if items.len() == 0 {
        Seq::empty()
    } else if declares_tools(items.last()) {
        declarations(items.drop_last()).push(items.last())
    } else {
        declarations(items.drop_last())
    }
}

proof fn lemma_declarations(declared: DeclaredView, items: Seq<JsonView>)
    ensures
        declared.declare_items(items) == declared.declare_items(declarations(items)),
    decreases items.len(),
{
    if items.len() > 0 {
        lemma_declarations(declared, items.drop_last());
        if declares_tools(items.last()) {
            assert(declarations(items).drop_last() =~= declarations(items.drop_last()));
        }
    }
}

/// Only declarations make a tool one that the answer may call: what was called in
/// the past, and anything else that a history says, changes nothing.
pub proof fn history_advertises_nothing(request: JsonView, other: JsonView)
    requires
        request.field("tools"@) == other.field("tools"@),
        request.field("input"@) is Array,
        other.field("input"@) is Array,
        declarations(request.field("input"@)->Array_0) == declarations(other.field("input"@)->Array_0),
    ensures
        declared_view(request) == declared_view(other),
        encode_view(request) matches Ok((_, tools)) ==> encode_view(other) matches Ok((_, others))
            ==> tools == others,
{
    let listed = match request.field("tools"@) {
        JsonView::Array(specs) => DeclaredView::none().declare_specs(specs),
        _ => Ok(DeclaredView::none()),
    };
    if let Ok(declared) = listed {
        lemma_declarations(declared, request.field("input"@)->Array_0);
        lemma_declarations(declared, other.field("input"@)->Array_0);
    }
}

/// Whether a tool is declared just like that.
pub open spec fn is_declared(declared: DeclaredView, namespace: Option<Seq<char>>, spec: JsonView) -> bool {
    match (is_custom(spec), string_view(spec, "name"@)) {
        (Ok(custom), Ok(name)) => {
            let tool = ToolView { name, namespace, custom };
            &&& flat_name(tool).len() > 0
            &&& declared.table.dom().contains(alias(tool))
            &&& declared.table[alias(tool)] == tool
            &&& definition_of(declared.definitions, alias(tool)) matches Some(definition)
            &&& definition.agrees_with(described(alias(tool), spec, custom))
        },
        _ => false,
    }
}

/// Whether a tool, or all tools of a namespace, are declared just like that.
pub open spec fn is_spec_declared(declared: DeclaredView, spec: JsonView) -> bool {
    if spec.field("type"@) == JsonView::Text("namespace"@) {
        string_view(spec, "name"@) matches Ok(namespace) && spec.field("tools"@) is Array && forall|i: int|
            0 <= i < spec.field("tools"@)->Array_0.len() ==> is_declared(
                declared,
                Some(namespace),
                #[trigger] spec.field("tools"@)->Array_0[i],
            )
    } else {
        is_declared(declared, None, spec)
    }
}

proof fn lemma_declared(declared: DeclaredView, namespace: Option<Seq<char>>, spec: JsonView)
    ensures
        is_declared(declared, namespace, spec) ==> declared.declare(namespace, spec) == Ok::<
            DeclaredView,
            ErrorView,
        >(declared),
        declared.declare(namespace, spec) matches Ok(after) ==> is_declared(after, namespace, spec) && forall|
            other: Option<Seq<char>>,
            earlier: JsonView,
        |
            is_declared(declared, other, earlier) ==> #[trigger] is_declared(after, other, earlier),
{
    if is_declared(declared, namespace, spec) {
        let tool = ToolView {
            name: string_view(spec, "name"@)->Ok_0,
            namespace,
            custom: is_custom(spec)->Ok_0,
        };
        assert(registered(declared.table, tool) =~= declared.table);
    }
    if let Ok(after) = declared.declare(namespace, spec) {
        if after.definitions.len() > declared.definitions.len() {
            assert(after.definitions.drop_last() =~= declared.definitions);
            lemma_alike(after.definitions.last().parameters);
        }
    }
}

proof fn lemma_declared_all(declared: DeclaredView, namespace: Option<Seq<char>>, specs: Seq<JsonView>)
    ensures
        (forall|i: int| 0 <= i < specs.len() ==> is_declared(declared, namespace, #[trigger] specs[i]))
            ==> declared.declare_all(namespace, specs) == Ok::<DeclaredView, ErrorView>(declared),
        declared.declare_all(namespace, specs) matches Ok(after) ==> {
            &&& forall|i: int| 0 <= i < specs.len() ==> is_declared(after, namespace, #[trigger] specs[i])
            &&& forall|other: Option<Seq<char>>, earlier: JsonView|
                is_declared(declared, other, earlier) ==> #[trigger] is_declared(after, other, earlier)
        },
    decreases specs.len(),
{
    if specs.len() > 0 {
        let rest = specs.drop_last();
        lemma_declared_all(declared, namespace, rest);
        assert(forall|i: int| 0 <= i < rest.len() ==> rest[i] == specs[i]);
        if let Ok(between) = declared.declare_all(namespace, rest) {
            lemma_declared(between, namespace, specs.last());
            if let Ok(after) = between.declare(namespace, specs.last()) {
                assert forall|i: int| 0 <= i < specs.len() implies is_declared(
                    after,
                    namespace,
                    #[trigger] specs[i],
                ) by {
                    if i < rest.len() {
                        assert(is_declared(between, namespace, rest[i]));
                    }
                }
            }
        }
        if forall|i: int| 0 <= i < specs.len() ==> is_declared(declared, namespace, #[trigger] specs[i]) {
            assert forall|i: int| 0 <= i < rest.len() implies is_declared(declared, namespace, #[trigger] rest[i]) by {
                assert(is_declared(declared, namespace, specs[i]));
            }
            assert(is_declared(declared, namespace, specs[specs.len() - 1]));
        }
    }
}

proof fn lemma_spec_declared(declared: DeclaredView, spec: JsonView)
    ensures
        is_spec_declared(declared, spec) ==> declared.declare_spec(spec) == Ok::<DeclaredView, ErrorView>(
            declared,
        ),
        declared.declare_spec(spec) matches Ok(after) ==> is_spec_declared(after, spec) && forall|
            earlier: JsonView,
        |
            is_spec_declared(declared, earlier) ==> #[trigger] is_spec_declared(after, earlier),
{
    lemma_declared(declared, None, spec);
    if let JsonView::Array(children) = spec.field("tools"@) {
        if let Ok(namespace) = string_view(spec, "name"@) {
            lemma_declared_all(declared, Some(namespace), children);
        }
    }
    if let Ok(after) = declared.declare_spec(spec) {
        assert forall|earlier: JsonView| is_spec_declared(declared, earlier) implies #[trigger] is_spec_declared(
            after,
            earlier,
        ) by {
            if earlier.field("type"@) == JsonView::Text("namespace"@) {
                let namespace = string_view(earlier, "name"@)->Ok_0;
                let children = earlier.field("tools"@)->Array_0;
                assert forall|i: int| 0 <= i < children.len() implies is_declared(
                    after,
                    Some(namespace),
                    #[trigger] children[i],
                ) by {
                    assert(is_declared(declared, Some(namespace), children[i]));
                }
            }
        }
    }
}

proof fn lemma_specs_declared(declared: DeclaredView, specs: Seq<JsonView>)
    ensures
        (forall|i: int| 0 <= i < specs.len() ==> is_spec_declared(declared, #[trigger] specs[i]))
            ==> declared.declare_specs(specs) == Ok::<DeclaredView, ErrorView>(declared),
        declared.declare_specs(specs) matches Ok(after) ==> forall|i: int|
            0 <= i < specs.len() ==> is_spec_declared(after, #[trigger] specs[i]),
    decreases specs.len(),
{
    if specs.len() > 0 {
        let rest = specs.drop_last();
        lemma_specs_declared(declared, rest);
        if let Ok(between) = declared.declare_specs(rest) {
            lemma_spec_declared(between, specs.last());
            if let Ok(after) = between.declare_spec(specs.last()) {
                assert forall|i: int| 0 <= i < specs.len() implies is_spec_declared(after, #[trigger] specs[i]) by {
                    if i < rest.len() {
                        assert(is_spec_declared(between, rest[i]));
                    }
                }
            }
        }
        if forall|i: int| 0 <= i < specs.len() ==> is_spec_declared(declared, #[trigger] specs[i]) {
            assert forall|i: int| 0 <= i < rest.len() implies is_spec_declared(declared, #[trigger] rest[i]) by {
                assert(is_spec_declared(declared, specs[i]));
            }
            assert(is_spec_declared(declared, specs[specs.len() - 1]));
        }
    }
}

/// Declaring the same tools again changes nothing.
pub proof fn repeated_declarations_change_nothing(declared: DeclaredView, specs: Seq<JsonView>)
    ensures
        declared.declare_specs(specs) matches Ok(after) ==> after.declare_specs(specs) == Ok::<
            DeclaredView,
            ErrorView,
        >(after),
{
    lemma_specs_declared(declared, specs);
    if let Ok(after) = declared.declare_specs(specs) {
        lemma_specs_declared(after, specs);
    }
}

/// A tool that was declared cannot be declared otherwise.
pub proof fn conflicting_declarations_are_refused(
    declared: DeclaredView,
    namespace: Option<Seq<char>>,
    spec: JsonView,
    other: JsonView,
)
    requires
        is_declared(declared, namespace, spec),
        other.field("type"@) == spec.field("type"@),
        other.field("name"@) == spec.field("name"@),
        !described(Seq::empty(), spec, is_custom(spec)->Ok_0).agrees_with(
            described(Seq::empty(), other, is_custom(other)->Ok_0),
        ),
    ensures
        declared.declare(namespace, other) == Err::<DeclaredView, ErrorView>(
            refusal("conflicting definitions of one tool"@),
        ),
{
    let tool = ToolView {
        name: string_view(spec, "name"@)->Ok_0,
        namespace,
        custom: is_custom(spec)->Ok_0,
    };
    let definition = definition_of(declared.definitions, alias(tool))->Some_0;
    let first = described(alias(tool), spec, tool.custom);
    let second = described(alias(tool), other, tool.custom);
    if definition.agrees_with(second) {
        lemma_all_alike(definition.parameters, first.parameters, second.parameters);
    }
}

} // verus!
