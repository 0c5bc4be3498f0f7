//! What a body advertises and asks for, told from the request.

use vstd::prelude::*;

use crate::history::declares_tools;
use crate::json::{alike, lemma_alike, lemma_all_alike, JsonView};
use crate::laws::chunks::{list_in, text_in};
use crate::laws::history::bodies_carry_their_content;
use crate::request::{
    declared_view, definition_of, definitions_json, described, encode_view, DeclaredView, DefinitionView,
};
use crate::tools::{alias, flat_name, ToolView};

verus! {

/// A tool that a request offers: the namespace that it stands in, and what is said of
/// it.
pub struct Offer {
    pub namespace: Option<Seq<char>>,
    pub spec: JsonView,
}

impl Offer {
    /// The tool that is offered.
    pub open spec fn tool(self) -> ToolView {
        ToolView {
            name: text_in(self.spec.field("name"@)),
            namespace: self.namespace,
            custom: self.spec.field("type"@) == JsonView::Text("custom"@),
        }
    }

    /// What the tool takes: what the request says that it takes; for a function of
    /// which it says nothing, an object without properties; for a custom tool, an
    /// object with one text, its input.
    pub open spec fn parameters(self) -> JsonView {
        if self.tool().custom {
            JsonView::object().with("type"@, JsonView::Text("object"@)).with(
                "properties"@,
                JsonView::object().with(
                    "input"@,
                    JsonView::object().with("type"@, JsonView::Text("string"@)),
                ),
            ).with("required"@, JsonView::Array(seq![JsonView::Text("input"@)])).with(
                "additionalProperties"@,
                JsonView::Bool(false),
            )
        } else if self.spec.has("parameters"@) {
            self.spec.field("parameters"@)
        } else {
            JsonView::object().with("type"@, JsonView::Text("object"@)).with(
                "properties"@,
                JsonView::object(),
            )
        }
    }
}

/// The offers of one entry of a list of tools: itself, or all of its namespace.
pub open spec fn offers_of(entry: JsonView) -> Seq<Offer> {
    if entry.field("type"@) == JsonView::Text("namespace"@) {
        list_in(entry.field("tools"@)).map_values(
            |child: JsonView| Offer { namespace: Some(text_in(entry.field("name"@))), spec: child },
        )
    } else {
        seq![Offer { namespace: None, spec: entry }]
    }
}

/// The offers of a list of tools, in order.
pub open spec fn offers(list: Seq<JsonView>) -> Seq<Offer>
    decreases list.len(),
{
    if list.len() == 0 {
        Seq::empty()
    } else {
        offers(list.drop_last()) + offers_of(list.last())
    }
}

/// The offers that a history adds, in order.
pub open spec fn added_offers(items: Seq<JsonView>) -> Seq<Offer>
    decreases items.len(),
{
    if items.len() == 0 {
        Seq::empty()
    } else if items.last().field("type"@) == JsonView::Text("additional_tools"@) {
        added_offers(items.drop_last()) + offers(list_in(items.last().field("tools"@)))
    } else {
        added_offers(items.drop_last())
    }
}

/// All that a request offers: its list of tools, and then what its history adds.
pub open spec fn all_offers(request: JsonView) -> Seq<Offer> {
    offers(list_in(request.field("tools"@))) + added_offers(list_in(request.field("input"@)))
}

/// Whether something is offered under a name on the wire.
pub open spec fn is_offered(offers: Seq<Offer>, name: Seq<char>) -> bool {
    exists|j: int| 0 <= j < offers.len() && alias((#[trigger] offers[j]).tool()) == name
}

/// The offers, each the first of its name.
pub open spec fn first_offers(offers: Seq<Offer>) -> Seq<Offer>
    decreases offers.len(),
{
    if offers.len() == 0 {
        Seq::empty()
    } else {
        let before = first_offers(offers.drop_last());
        if is_offered(offers.drop_last(), alias(offers.last().tool())) {
            before
        } else {
            before.push(offers.last())
        }
    }
}

/// Whether an entry of a body advertises what is offered: under its name on the wire,
/// with its description, with its parameters as they came, and with nothing else.
pub open spec fn advertises(entry: JsonView, offer: Offer) -> bool {
    entry == JsonView::object().with("type"@, JsonView::Text("function"@)).with(
        "function"@,
        JsonView::object().with("name"@, JsonView::Text(alias(offer.tool()))).with(
            "description"@,
            JsonView::Text(text_in(offer.spec.field("description"@))),
        ).with("parameters"@, offer.parameters()),
    )
}

/// Whether an entry of a body advertises an offer that is repeated: the parameters are
/// the same but for the sign of zeros.
pub open spec fn advertises_again(entry: JsonView, offer: Offer) -> bool {
    let function = entry.field("function"@);
    &&& entry.field("type"@) == JsonView::Text("function"@)
    &&& function.field("name"@) == JsonView::Text(alias(offer.tool()))
    &&& function.field("description"@) == JsonView::Text(text_in(offer.spec.field("description"@)))
    &&& alike(function.field("parameters"@), offer.parameters())
}

/// What one offer after the other declares.
spec fn declare_offers(declared: DeclaredView, offers: Seq<Offer>) -> Option<DeclaredView>
    decreases offers.len(),
{
    if offers.len() == 0 {
        Some(declared)
    } else {
        match declare_offers(declared, offers.drop_last()) {
            None => None,
            Some(before) => match before.declare(offers.last().namespace, offers.last().spec) {
                Ok(after) => Some(after),
                Err(_) => None,
            },
        }
    }
}

proof fn lemma_follow(declared: DeclaredView, offers: Seq<Offer>, more: Seq<Offer>)
    requires
        declare_offers(declared, offers) is Some,
    ensures
        declare_offers(declared, offers + more) == declare_offers(
            declare_offers(declared, offers)->Some_0,
            more,
        ),
    decreases more.len(),
{
    if more.len() == 0 {
        assert(offers + more =~= offers);
    } else {
        lemma_follow(declared, offers, more.drop_last());
        assert((offers + more).drop_last() =~= offers + more.drop_last());
    }
}

proof fn lemma_all(declared: DeclaredView, namespace: Seq<char>, specs: Seq<JsonView>)
    ensures
        declared.declare_all(Some(namespace), specs) matches Ok(after) ==> declare_offers(
            declared,
            specs.map_values(|spec: JsonView| Offer { namespace: Some(namespace), spec }),
        ) == Some(after),
    decreases specs.len(),
{
    let list = specs.map_values(|spec: JsonView| Offer { namespace: Some(namespace), spec });
    if specs.len() > 0 {
        let rest = specs.drop_last();
        lemma_all(declared, namespace, rest);
        assert(list.drop_last() =~= rest.map_values(
            |spec: JsonView| Offer { namespace: Some(namespace), spec },
        ));
    }
}

proof fn lemma_spec(declared: DeclaredView, spec: JsonView)
    ensures
        declared.declare_spec(spec) matches Ok(after) ==> declare_offers(declared, offers_of(spec)) == Some(after),
{
    if spec.field("type"@) == JsonView::Text("namespace"@) {
        let namespace = text_in(spec.field("name"@));
        let children = list_in(spec.field("tools"@));
        lemma_all(declared, namespace, children);
        assert(offers_of(spec) =~= children.map_values(
            |spec: JsonView| Offer { namespace: Some(namespace), spec },
        ));
    } else {
        let list = offers_of(spec);
        assert(list.drop_last() =~= Seq::empty());
        assert(declare_offers(declared, Seq::empty()) == Some(declared));
    }
}

proof fn lemma_specs(declared: DeclaredView, specs: Seq<JsonView>)
    ensures
        declared.declare_specs(specs) matches Ok(after) ==> declare_offers(declared, offers(specs)) == Some(after),
    decreases specs.len(),
{
    if specs.len() > 0 {
        let rest = specs.drop_last();
        lemma_specs(declared, rest);
        if let Ok(between) = declared.declare_specs(rest) {
            lemma_spec(between, specs.last());
            lemma_follow(declared, offers(rest), offers_of(specs.last()));
        }
    }
}

proof fn lemma_items(declared: DeclaredView, items: Seq<JsonView>)
    ensures
        declared.declare_items(items) matches Ok(after) ==> declare_offers(declared, added_offers(items)) == Some(
            after,
        ),
    decreases items.len(),
{
    if items.len() > 0 {
        let rest = items.drop_last();
        lemma_items(declared, rest);
        if let Ok(between) = declared.declare_items(rest) {
            let list = list_in(items.last().field("tools"@));
            lemma_specs(between, list);
            lemma_follow(declared, added_offers(rest), offers(list));
            if !declares_tools(items.last()) {
                assert(offers(list) =~= Seq::empty() || items.last().field("type"@) != JsonView::Text(
                    "additional_tools"@,
                ));
                assert(added_offers(items) =~= added_offers(rest));
            }
        }
    }
}

/// Whether a definition says of an offer what it should.
spec fn is_described(definition: DefinitionView, offer: Offer) -> bool {
    &&& definition.name == alias(offer.tool())
    &&& definition.description == text_in(offer.spec.field("description"@))
    &&& definition.parameters == offer.parameters()
}

/// Whether definitions have one that says of an offer what it should, but for the sign
/// of zeros.
spec fn is_covered(definitions: Seq<DefinitionView>, offer: Offer) -> bool {
    exists|k: int|
        0 <= k < definitions.len() && (#[trigger] definitions[k]).name == alias(offer.tool())
            && definitions[k].description == text_in(offer.spec.field("description"@)) && alike(
            definitions[k].parameters,
            offer.parameters(),
        )
}

/// Whether what was declared is what was offered.
spec fn is_all(declared: DeclaredView, offers: Seq<Offer>) -> bool {
    let firsts = first_offers(offers);
    &&& declared.definitions.len() == firsts.len()
    &&& forall|k: int| 0 <= k < firsts.len() ==> is_described(declared.definitions[k], #[trigger] firsts[k])
    &&& forall|j: int| 0 <= j < offers.len() ==> is_covered(declared.definitions, #[trigger] offers[j])
    &&& forall|name: Seq<char>| #[trigger] declared.table.dom().contains(name) <==> is_offered(offers, name)
    &&& forall|j: int|
        0 <= j < offers.len() ==> declared.table[alias((#[trigger] offers[j]).tool())] == offers[j].tool()
    &&& forall|k: int| 0 <= k < firsts.len() ==> offers.contains(#[trigger] firsts[k])
    &&& forall|j: int, k: int|
        0 <= j < k < declared.definitions.len() ==> (#[trigger] declared.definitions[j]).name != (
        #[trigger] declared.definitions[k]).name
}

proof fn lemma_found(definitions: Seq<DefinitionView>, name: Seq<char>)
    ensures
        match definition_of(definitions, name) {
            Some(definition) => exists|k: int|
                0 <= k < definitions.len() && #[trigger] definitions[k] == definition && definition.name == name,
            None => forall|k: int| 0 <= k < definitions.len() ==> (#[trigger] definitions[k]).name != name,
        },
    decreases definitions.len(),
{
    if definitions.len() > 0 {
        let rest = definitions.drop_last();
        lemma_found(rest, name);
        assert(definitions[definitions.len() - 1] == definitions.last());
        if definitions.last().name != name {
            match definition_of(rest, name) {
                Some(definition) => {
                    let k = choose|k: int|
                        0 <= k < rest.len() && #[trigger] rest[k] == definition && definition.name == name;
                    assert(definitions[k] == definition);
                },
                None => {
                    assert forall|k: int| 0 <= k < definitions.len() implies (#[trigger] definitions[k]).name
                        != name by {
                        if k < rest.len() {
                            assert(rest[k].name != name);
                        }
                    }
                },
            }
        }
    }
}

proof fn lemma_described(offer: Offer, wire: Seq<char>)
    requires
        wire == alias(offer.tool()),
    ensures
        is_described(described(wire, offer.spec, offer.tool().custom), offer),
{
}

proof fn lemma_declare_offer(declared: DeclaredView, offers: Seq<Offer>, offer: Offer)
    requires
        is_all(declared, offers),
    ensures
        declared.declare(offer.namespace, offer.spec) matches Ok(after) ==> is_all(after, offers.push(offer)),
{
    if let Ok(after) = declared.declare(offer.namespace, offer.spec) {
        reveal_strlit("function");
        reveal_strlit("custom");
        assert("function"@.len() == 8 && "custom"@.len() == 6);
        let tool = offer.tool();
        let wire = alias(tool);
        let all = offers.push(offer);
        let definition = described(wire, offer.spec, tool.custom);
        let firsts = first_offers(offers);
        assert(all.drop_last() =~= offers);
        assert(all.last() == offer);
        lemma_described(offer, wire);
        lemma_found(declared.definitions, wire);
        assert(after.table == declared.table.insert(wire, tool));
        // What has the name already is among the first offers.
        assert(is_offered(offers, wire) <==> definition_of(declared.definitions, wire) is Some) by {
            if is_offered(offers, wire) {
                let j = choose|j: int| 0 <= j < offers.len() && alias((#[trigger] offers[j]).tool()) == wire;
                assert(is_covered(declared.definitions, offers[j]));
                let k = choose|k: int|
                    0 <= k < declared.definitions.len() && (#[trigger] declared.definitions[k]).name == alias(
                        offers[j].tool(),
                    );
                assert(declared.definitions[k].name == wire);
            }
            if definition_of(declared.definitions, wire) is Some {
                let k = choose|k: int|
                    0 <= k < declared.definitions.len() && (#[trigger] declared.definitions[k]).name == wire;
                assert(is_described(declared.definitions[k], firsts[k]));
                assert(offers.contains(firsts[k]));
                let j = choose|j: int| 0 <= j < offers.len() && offers[j] == firsts[k];
                assert(alias(offers[j].tool()) == wire);
            }
        }
        assert(first_offers(all) == if is_offered(offers, wire) {
            firsts
        } else {
            firsts.push(offer)
        });
        assert forall|k: int| 0 <= k < first_offers(all).len() implies is_described(
            after.definitions[k],
            #[trigger] first_offers(all)[k],
        ) && all.contains(first_offers(all)[k]) by {
            if k < firsts.len() {
                assert(is_described(declared.definitions[k], firsts[k]));
                assert(offers.contains(firsts[k]));
                let j = choose|j: int| 0 <= j < offers.len() && offers[j] == firsts[k];
                assert(all[j] == firsts[k]);
            } else {
                assert(all[offers.len() as int] == offer);
            }
        }
        assert forall|j: int| 0 <= j < all.len() implies is_covered(after.definitions, #[trigger] all[j]) by {
            if j < offers.len() {
                assert(is_covered(declared.definitions, offers[j]));
                let k = choose|k: int|
                    0 <= k < declared.definitions.len() && (#[trigger] declared.definitions[k]).name == alias(
                        offers[j].tool(),
                    ) && declared.definitions[k].description == text_in(offers[j].spec.field("description"@))
                        && alike(declared.definitions[k].parameters, offers[j].parameters());
                assert(after.definitions[k] == declared.definitions[k]);
            } else {
                match definition_of(declared.definitions, wire) {
                    None => {
                        lemma_alike(offer.parameters());
                        assert(after.definitions[declared.definitions.len() as int] == definition);
                    },
                    Some(before) => {
                        let k = choose|k: int|
                            0 <= k < declared.definitions.len() && #[trigger] declared.definitions[k] == before;
                        assert(after.definitions[k].name == wire);
                    },
                }
            }
        }
        assert forall|name: Seq<char>| #[trigger] after.table.dom().contains(name) <==> is_offered(all, name) by {
            if is_offered(offers, name) {
                let j = choose|j: int| 0 <= j < offers.len() && alias((#[trigger] offers[j]).tool()) == name;
                assert(alias(all[j].tool()) == name);
            }
            if is_offered(all, name) {
                let j = choose|j: int| 0 <= j < all.len() && alias((#[trigger] all[j]).tool()) == name;
                if j < offers.len() {
                    assert(alias(offers[j].tool()) == name);
                }
            }
            assert(alias(all[offers.len() as int].tool()) == wire);
            assert(declared.table.dom().contains(name) <==> is_offered(offers, name));
        }
        assert forall|j: int| 0 <= j < all.len() implies after.table[alias((#[trigger] all[j]).tool())]
            == all[j].tool() by {
            if j < offers.len() {
                assert(all[j] == offers[j]);
                assert(is_offered(offers, alias(offers[j].tool())));
                assert(declared.table.dom().contains(alias(offers[j].tool())));
            }
        }
    }
}

proof fn lemma_declare_offers(offers: Seq<Offer>)
    ensures
        declare_offers(DeclaredView::none(), offers) matches Some(after) ==> is_all(after, offers),
    decreases offers.len(),
{
    if offers.len() > 0 {
        let rest = offers.drop_last();
        lemma_declare_offers(rest);
        if let Some(before) = declare_offers(DeclaredView::none(), rest) {
            lemma_declare_offer(before, rest, offers.last());
            assert(rest.push(offers.last()) =~= offers);
        }
    } else {
        assert forall|name: Seq<char>| !is_offered(offers, name) by {}
    }
}

proof fn lemma_entry(definition: DefinitionView)
    ensures
        ({
            let entry = definition.json();
            let function = entry.field("function"@);
            &&& entry.field("type"@) == JsonView::Text("function"@)
            &&& function.field("name"@) == JsonView::Text(definition.name)
            &&& function.field("description"@) == JsonView::Text(definition.description)
            &&& function.field("parameters"@) == definition.parameters
        }),
{
    reveal_strlit("type");
    reveal_strlit("function");
    reveal_strlit("name");
    reveal_strlit("description");
    reveal_strlit("parameters");
    assert("type"@.len() == 4 && "function"@.len() == 8);
    assert("name"@.len() == 4 && "description"@.len() == 11 && "parameters"@.len() == 10);
}

/// Everything that a request offers is advertised, and nothing else. The tools of the
/// body are the offers of the request, in order, each once, with the description and
/// the parameters that the request gives; and the tools that the answer may call are
/// those offered.
pub proof fn every_offer_is_advertised(request: JsonView)
    ensures
        encode_view(request) matches Ok((body, tools)) ==> {
            let list = list_in(body.field("tools"@));
            let offers = all_offers(request);
            let firsts = first_offers(offers);
            &&& list.len() == firsts.len()
            &&& forall|k: int| 0 <= k < firsts.len() ==> advertises(list[k], #[trigger] firsts[k])
            &&& forall|j: int|
                0 <= j < offers.len() ==> exists|k: int|
                    0 <= k < list.len() && advertises_again(#[trigger] list[k], #[trigger] offers[j])
            &&& forall|name: Seq<char>| #[trigger] tools.dom().contains(name) <==> is_offered(offers, name)
            &&& forall|j: int|
                0 <= j < offers.len() ==> tools[alias((#[trigger] offers[j]).tool())] == offers[j].tool()
        },
{
    if let Ok((body, tools)) = encode_view(request) {
        let list = list_in(body.field("tools"@));
        let specs = list_in(request.field("tools"@));
        let items = list_in(request.field("input"@));
        let offered = all_offers(request);
        let firsts = first_offers(offered);
        let declared = declared_view(request)->Ok_0;
        let definitions = declared.definitions;
        bodies_carry_their_content(request);
        lemma_specs(DeclaredView::none(), specs);
        if !(request.field("tools"@) is Array) {
            assert(offers(specs) =~= Seq::empty());
        }
        let between = declare_offers(DeclaredView::none(), offers(specs))->Some_0;
        lemma_items(between, items);
        lemma_follow(DeclaredView::none(), offers(specs), added_offers(items));
        lemma_declare_offers(offered);
        assert(list == definitions_json(definitions));
        assert forall|k: int| 0 <= k < firsts.len() implies advertises(list[k], #[trigger] firsts[k]) by {
            lemma_entry(definitions[k]);
            assert(is_described(definitions[k], firsts[k]));
        }
        assert forall|j: int| 0 <= j < offered.len() implies exists|k: int|
            0 <= k < list.len() && advertises_again(#[trigger] list[k], #[trigger] offered[j]) by {
            assert(is_covered(definitions, offered[j]));
            let k = choose|k: int|
                0 <= k < definitions.len() && (#[trigger] definitions[k]).name == alias(offered[j].tool())
                    && definitions[k].description == text_in(offered[j].spec.field("description"@)) && alike(
                    definitions[k].parameters,
                    offered[j].parameters(),
                );
            lemma_entry(definitions[k]);
            assert(advertises_again(list[k], offered[j]));
        }
    }
}

/// Whether two offers may stand in one request: under different names, or as one tool
/// of which both say the same, but for the sign of zeros.
pub open spec fn are_compatible(a: Offer, b: Offer) -> bool {
    alias(a.tool()) == alias(b.tool()) ==> {
        &&& a.tool() == b.tool()
        &&& text_in(a.spec.field("description"@)) == text_in(b.spec.field("description"@))
        &&& alike(a.parameters(), b.parameters())
    }
}

/// Whether an offer can be made: it is a function or a custom tool, and has a name. In
/// a namespace the name may be empty.
pub open spec fn is_possible(offer: Offer) -> bool {
    let kind = offer.spec.field("type"@);
    &&& kind == JsonView::Text("function"@) || kind == JsonView::Text("custom"@)
    &&& offer.spec.field("name"@) is Text
    &&& offer.namespace is Some || text_in(offer.spec.field("name"@)).len() > 0
}

/// Whether offers can be made together.
pub open spec fn are_possible(offers: Seq<Offer>) -> bool {
    &&& forall|j: int| 0 <= j < offers.len() ==> is_possible(#[trigger] offers[j])
    &&& forall|i: int, j: int|
        0 <= i < j < offers.len() ==> are_compatible(#[trigger] offers[i], #[trigger] offers[j])
}

/// Whether every namespace in a list of tools has a name and a list of its own.
pub open spec fn namespaces_hold(list: Seq<JsonView>) -> bool {
    forall|i: int|
        0 <= i < list.len() && (#[trigger] list[i]).field("type"@) == JsonView::Text("namespace"@)
            ==> list[i].field("name"@) is Text && list[i].field("tools"@) is Array
}

/// Whether every namespace that a history adds has a name and a list of its own.
pub open spec fn added_namespaces_hold(items: Seq<JsonView>) -> bool {
    forall|i: int|
        0 <= i < items.len() && (#[trigger] items[i]).field("type"@) == JsonView::Text("additional_tools"@)
            ==> namespaces_hold(list_in(items[i].field("tools"@)))
}

proof fn lemma_stays_refused(declared: DeclaredView, offers: Seq<Offer>, more: Seq<Offer>)
    requires
        declare_offers(declared, offers) is None,
    ensures
        declare_offers(declared, offers + more) is None,
    decreases more.len(),
{
    if more.len() == 0 {
        assert(offers + more =~= offers);
    } else {
        lemma_stays_refused(declared, offers, more.drop_last());
        assert((offers + more).drop_last() =~= offers + more.drop_last());
    }
}

proof fn lemma_all_accepted(declared: DeclaredView, namespace: Seq<char>, specs: Seq<JsonView>)
    ensures
        declared.declare_all(Some(namespace), specs) is Ok <==> declare_offers(
            declared,
            specs.map_values(|spec: JsonView| Offer { namespace: Some(namespace), spec }),
        ) is Some,
    decreases specs.len(),
{
    let list = specs.map_values(|spec: JsonView| Offer { namespace: Some(namespace), spec });
    if specs.len() > 0 {
        let rest = specs.drop_last();
        lemma_all_accepted(declared, namespace, rest);
        lemma_all(declared, namespace, rest);
        assert(list.drop_last() =~= rest.map_values(
            |spec: JsonView| Offer { namespace: Some(namespace), spec },
        ));
    }
}

proof fn lemma_spec_accepted(declared: DeclaredView, spec: JsonView)
    ensures
        declared.declare_spec(spec) is Ok <==> namespaces_hold(seq![spec]) && declare_offers(
            declared,
            offers_of(spec),
        ) is Some,
{
    let one = seq![spec];
    assert(one[0] == spec);
    if spec.field("type"@) == JsonView::Text("namespace"@) {
        let namespace = text_in(spec.field("name"@));
        let children = list_in(spec.field("tools"@));
        lemma_all_accepted(declared, namespace, children);
        assert(offers_of(spec) =~= children.map_values(
            |spec: JsonView| Offer { namespace: Some(namespace), spec },
        ));
    } else {
        let list = offers_of(spec);
        assert(list.drop_last() =~= Seq::empty());
        assert(declare_offers(declared, Seq::empty()) == Some(declared));
    }
}

proof fn lemma_specs_accepted(declared: DeclaredView, specs: Seq<JsonView>)
    ensures
        declared.declare_specs(specs) is Ok <==> namespaces_hold(specs) && declare_offers(
            declared,
            offers(specs),
        ) is Some,
    decreases specs.len(),
{
    if specs.len() > 0 {
        let rest = specs.drop_last();
        let last = specs.last();
        lemma_specs_accepted(declared, rest);
        lemma_specs(declared, rest);
        assert(namespaces_hold(specs) <==> namespaces_hold(rest) && namespaces_hold(seq![last])) by {
            let one = seq![last];
            assert(one[0] == last);
            assert(specs[specs.len() - 1] == last);
            assert forall|i: int| 0 <= i < rest.len() implies rest[i] == #[trigger] specs[i] by {}
            if namespaces_hold(specs) {
                assert forall|i: int|
                    0 <= i < rest.len() && (#[trigger] rest[i]).field("type"@) == JsonView::Text("namespace"@) implies rest[i].field(
                    "name"@,
                ) is Text && rest[i].field("tools"@) is Array by {
                    assert(specs[i] == rest[i]);
                }
            }
        }
        if declare_offers(declared, offers(rest)) is Some {
            lemma_follow(declared, offers(rest), offers_of(last));
            if let Ok(between) = declared.declare_specs(rest) {
                lemma_spec_accepted(between, last);
            }
        } else {
            lemma_stays_refused(declared, offers(rest), offers_of(last));
        }
    }
}

proof fn lemma_items_accepted(declared: DeclaredView, items: Seq<JsonView>)
    ensures
        declared.declare_items(items) is Ok <==> added_namespaces_hold(items) && declare_offers(
            declared,
            added_offers(items),
        ) is Some,
    decreases items.len(),
{
    if items.len() > 0 {
        let rest = items.drop_last();
        let last = items.last();
        let list = list_in(last.field("tools"@));
        lemma_items_accepted(declared, rest);
        lemma_items(declared, rest);
        let adds = last.field("type"@) == JsonView::Text("additional_tools"@);
        assert(added_namespaces_hold(items) <==> added_namespaces_hold(rest) && (adds ==> namespaces_hold(list)))
            by {
            assert(items[items.len() - 1] == last);
            assert forall|i: int| 0 <= i < rest.len() implies rest[i] == #[trigger] items[i] by {}
            if added_namespaces_hold(items) {
                assert forall|i: int|
                    0 <= i < rest.len() && (#[trigger] rest[i]).field("type"@) == JsonView::Text(
                        "additional_tools"@,
                    ) implies namespaces_hold(list_in(rest[i].field("tools"@))) by {
                    assert(items[i] == rest[i]);
                }
            }
        }
        if adds {
            if declare_offers(declared, added_offers(rest)) is Some {
                lemma_follow(declared, added_offers(rest), offers(list));
                if let Ok(between) = declared.declare_items(rest) {
                    lemma_specs_accepted(between, list);
                }
                if !declares_tools(last) {
                    assert(offers(list) =~= Seq::empty());
                    assert(namespaces_hold(list));
                }
            } else {
                lemma_stays_refused(declared, added_offers(rest), offers(list));
            }
        }
    }
}

proof fn lemma_offer_accepted(declared: DeclaredView, offers: Seq<Offer>, offer: Offer)
    requires
        is_all(declared, offers),
    ensures
        declared.declare(offer.namespace, offer.spec) is Ok <==> is_possible(offer) && forall|i: int|
            0 <= i < offers.len() ==> are_compatible(#[trigger] offers[i], offer),
{
    reveal_strlit("function");
    reveal_strlit("custom");
    reveal_strlit("__");
    assert("function"@.len() == 8 && "custom"@.len() == 6 && "__"@.len() == 2);
    let tool = offer.tool();
    let wire = alias(tool);
    let definitions = declared.definitions;
    let definition = described(wire, offer.spec, tool.custom);
    let firsts = first_offers(offers);
    lemma_described(offer, wire);
    lemma_found(definitions, wire);
    if is_possible(offer) {
        assert(flat_name(tool).len() > 0);
    }
    if declared.declare(offer.namespace, offer.spec) is Ok {
        assert forall|i: int| 0 <= i < offers.len() implies are_compatible(#[trigger] offers[i], offer) by {
            if alias(offers[i].tool()) == wire {
                assert(is_offered(offers, wire));
                assert(declared.table.dom().contains(wire));
                assert(is_covered(definitions, offers[i]));
                let k = choose|k: int|
                    0 <= k < definitions.len() && (#[trigger] definitions[k]).name == alias(offers[i].tool())
                        && definitions[k].description == text_in(offers[i].spec.field("description"@)) && alike(
                        definitions[k].parameters,
                        offers[i].parameters(),
                    );
                let before = definition_of(definitions, wire)->Some_0;
                let j = choose|j: int| 0 <= j < definitions.len() && #[trigger] definitions[j] == before;
                assert(j == k) by {
                    if j < k {
                        assert(definitions[j].name != definitions[k].name);
                    }
                    if k < j {
                        assert(definitions[k].name != definitions[j].name);
                    }
                }
                assert(before.agrees_with(definition));
                lemma_all_alike(before.parameters, offers[i].parameters(), offer.parameters());
            }
        }
    }
    if is_possible(offer) && (forall|i: int|
        0 <= i < offers.len() ==> are_compatible(#[trigger] offers[i], offer)) {
        if declared.table.dom().contains(wire) {
            assert(is_offered(offers, wire));
            let i = choose|i: int| 0 <= i < offers.len() && alias((#[trigger] offers[i]).tool()) == wire;
            assert(are_compatible(offers[i], offer));
            assert(declared.table[wire] == tool);
        }
        if let Some(before) = definition_of(definitions, wire) {
            let k = choose|k: int|
                0 <= k < definitions.len() && #[trigger] definitions[k] == before && before.name == wire;
            assert(is_described(definitions[k], firsts[k]));
            assert(offers.contains(firsts[k]));
            let i = choose|i: int| 0 <= i < offers.len() && offers[i] == firsts[k];
            assert(are_compatible(offers[i], offer));
            assert(before.agrees_with(definition));
        }
    }
}

proof fn lemma_offers_accepted(offers: Seq<Offer>)
    ensures
        declare_offers(DeclaredView::none(), offers) is Some <==> are_possible(offers),
    decreases offers.len(),
{
    if offers.len() > 0 {
        let rest = offers.drop_last();
        let last = offers.last();
        lemma_offers_accepted(rest);
        lemma_declare_offers(rest);
        assert(offers[offers.len() - 1] == last);
        if let Some(before) = declare_offers(DeclaredView::none(), rest) {
            lemma_offer_accepted(before, rest, last);
        }
        if are_possible(offers) {
            assert forall|j: int| 0 <= j < rest.len() implies is_possible(#[trigger] rest[j]) by {
                assert(is_possible(offers[j]));
            }
            assert forall|i: int, j: int| 0 <= i < j < rest.len() implies are_compatible(
                #[trigger] rest[i],
                #[trigger] rest[j],
            ) by {
                assert(are_compatible(offers[i], offers[j]));
            }
            assert forall|i: int| 0 <= i < rest.len() implies are_compatible(#[trigger] rest[i], last) by {
                assert(are_compatible(offers[i], offers[offers.len() - 1]));
            }
        }
        if declare_offers(DeclaredView::none(), offers) is Some {
            assert forall|j: int| 0 <= j < offers.len() implies is_possible(#[trigger] offers[j]) by {
                if j < rest.len() {
                    assert(is_possible(rest[j]));
                }
            }
            assert forall|i: int, j: int| 0 <= i < j < offers.len() implies are_compatible(
                #[trigger] offers[i],
                #[trigger] offers[j],
            ) by {
                if j < rest.len() {
                    assert(are_compatible(rest[i], rest[j]));
                } else {
                    assert(are_compatible(rest[i], last));
                }
            }
        }
    }
}

/// The tools of a request are accepted exactly where it has a list of items, every
/// namespace is whole, and all that it offers can be offered together. Then each is
/// known by its name on the wire.
pub proof fn offers_are_accepted(request: JsonView)
    ensures
        declared_view(request) is Ok <==> {
            &&& request.field("input"@) is Array
            &&& namespaces_hold(list_in(request.field("tools"@)))
            &&& added_namespaces_hold(list_in(request.field("input"@)))
            &&& are_possible(all_offers(request))
        },
        declared_view(request) matches Ok(declared) ==> {
            let offers = all_offers(request);
            &&& forall|name: Seq<char>| #[trigger] declared.table.dom().contains(name) <==> is_offered(offers, name)
            &&& forall|j: int|
                0 <= j < offers.len() ==> declared.table[alias((#[trigger] offers[j]).tool())] == offers[j].tool()
        },
{
    let specs = list_in(request.field("tools"@));
    let items = list_in(request.field("input"@));
    let none = DeclaredView::none();
    lemma_specs(none, specs);
    lemma_specs_accepted(none, specs);
    if !(request.field("tools"@) is Array) {
        assert(offers(specs) =~= Seq::empty());
        assert(namespaces_hold(specs));
    }
    lemma_offers_accepted(all_offers(request));
    lemma_declare_offers(all_offers(request));
    if let Some(between) = declare_offers(none, offers(specs)) {
        lemma_items(between, items);
        lemma_items_accepted(between, items);
        lemma_follow(none, offers(specs), added_offers(items));
    } else {
        lemma_stays_refused(none, offers(specs), added_offers(items));
    }
}

} // verus!
