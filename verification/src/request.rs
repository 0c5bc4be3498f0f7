//! A request of the agent as the body of a chat request.

use vstd::prelude::*;

use crate::error::{invalid, refusal, ApiError, ErrorView};
use crate::history::{
    additional_tools, declares_tools, start, string, string_view, History, HistoryView,
};
use crate::json::{alike, items_view, Json, JsonView};
use crate::message::{Message, MessageView};
use crate::text::{copy_optional_text, optional_text, same_text};
use crate::tools::{register, registered, registration, Tool, ToolTable, ToolView};
use crate::views::{group_views, views};

verus! {

broadcast use group_views;

/// A tool as the chat request describes it.
#[derive(Debug)]
pub struct Definition {
    pub name: String,
    pub description: String,
    pub parameters: Json,
}

pub struct DefinitionView {
    pub name: Seq<char>,
    pub description: Seq<char>,
    pub parameters: JsonView,
}

impl View for Definition {
    type V = DefinitionView;

    open spec fn view(&self) -> DefinitionView {
        DefinitionView {
            name: self.name@,
            description: self.description@,
            parameters: self.parameters@,
        }
    }
}

impl DefinitionView {
    /// Whether another definition of the name says the same.
    pub open spec fn agrees_with(self, other: DefinitionView) -> bool {
        &&& self.name == other.name
        &&& self.description == other.description
        &&& alike(self.parameters, other.parameters)
    }

    /// The definition in its form on the wire.
    pub open spec fn json(self) -> JsonView {
        JsonView::object().with("type"@, JsonView::Text("function"@)).with(
            "function"@,
            JsonView::object().with("name"@, JsonView::Text(self.name)).with(
                "description"@,
                JsonView::Text(self.description),
            ).with("parameters"@, self.parameters),
        )
    }
}

impl Definition {
    pub fn json(&self) -> (json: Json)
        ensures
            json@ == self@.json(),
    {
        Json::object().with("type", Json::of_text("function")).with(
            "function",
            Json::object().with("name", Json::Text(self.name.clone())).with(
                "description",
                Json::Text(self.description.clone()),
            ).with("parameters", self.parameters.clone()),
        )
    }
}

/// The parameters of a custom tool: one text, its input.
pub open spec fn custom_parameters() -> JsonView {
    JsonView::object().with("type"@, JsonView::Text("object"@)).with(
        "properties"@,
        JsonView::object().with(
            "input"@,
            JsonView::object().with("type"@, JsonView::Text("string"@)),
        ),
    ).with("required"@, JsonView::Array(seq![JsonView::Text("input"@)])).with(
        "additionalProperties"@,
        JsonView::Bool(false),
    )
}

/// The parameters of a function that names none.
pub open spec fn no_parameters() -> JsonView {
    JsonView::object().with("type"@, JsonView::Text("object"@)).with(
        "properties"@,
        JsonView::object(),
    )
}

fn custom_parameters_json() -> (json: Json)
    ensures
        json@ == custom_parameters(),
{
    let mut required: Vec<Json> = Vec::new();
    required.push(Json::of_text("input"));
    assert(items_view(required@) =~= seq![JsonView::Text("input"@)]);
    Json::object().with("type", Json::of_text("object")).with(
        "properties",
        Json::object().with("input", Json::object().with("type", Json::of_text("string"))),
    ).with("required", Json::Array(required)).with("additionalProperties", Json::Bool(false))
}

/// How a tool with that name on the wire is described.
pub open spec fn described(name: Seq<char>, spec: JsonView, custom: bool) -> DefinitionView {
    DefinitionView {
        name,
        description: match spec.field("description"@).text() {
            Some(text) => text,
            None => Seq::empty(),
        },
        parameters: if custom {
            custom_parameters()
        } else if spec.has("parameters"@) {
            spec.field("parameters"@)
        } else {
            no_parameters()
        },
    }
}

fn describe(name: String, spec: &Json, custom: bool) -> (definition: Definition)
    ensures
        definition@ == described(name@, spec@, custom),
{
    let description = match spec.field("description").as_str() {
        Some(text) => text.to_owned(),
        None => String::new(),
    };
    let parameters = if custom {
        custom_parameters_json()
    } else {
        match spec.get("parameters") {
            Some(parameters) => parameters.clone(),
            None => Json::object().with("type", Json::of_text("object")).with("properties", Json::object()),
        }
    };
    Definition { name, description, parameters }
}

/// The last definition of that name.
pub open spec fn definition_of(definitions: Seq<DefinitionView>, name: Seq<char>) -> Option<DefinitionView>
    decreases definitions.len(),
{
    if definitions.len() == 0 {
        None
    } else if definitions.last().name == name {
        Some(definitions.last())
    } else {
        definition_of(definitions.drop_last(), name)
    }
}

/// The tools that a request has declared.
#[derive(Debug)]
pub struct Declared {
    pub table: ToolTable,
    pub definitions: Vec<Definition>,
}

pub struct DeclaredView {
    pub table: Map<Seq<char>, ToolView>,
    pub definitions: Seq<DefinitionView>,
}

impl View for Declared {
    type V = DeclaredView;

    open spec fn view(&self) -> DeclaredView {
        DeclaredView { table: self.table@, definitions: views(self.definitions@) }
    }
}

pub open spec fn is_custom(spec: JsonView) -> Result<bool, ErrorView> {
    if spec.field("type"@) == JsonView::Text("function"@) {
        Ok(false)
    } else if spec.field("type"@) == JsonView::Text("custom"@) {
        Ok(true)
    } else {
        Err(refusal("only function and custom tools are supported"@))
    }
}

impl DeclaredView {
    /// No tool declared.
    pub open spec fn none() -> DeclaredView {
        DeclaredView { table: Map::empty(), definitions: Seq::empty() }
    }

    /// Declares one tool. The same declaration may be repeated, and counts once.
    pub open spec fn declare(self, namespace: Option<Seq<char>>, spec: JsonView) -> Result<
        DeclaredView,
        ErrorView,
    > {
        match is_custom(spec) {
            Err(error) => Err(error),
            Ok(custom) => match string_view(spec, "name"@) {
                Err(error) => Err(error),
                Ok(name) => {
                    let tool = ToolView { name, namespace, custom };
                    match registration(self.table, tool) {
                        Err(error) => Err(error),
                        Ok(wire) => {
                            let table = registered(self.table, tool);
                            let definition = described(wire, spec, custom);
                            match definition_of(self.definitions, wire) {
                                None => Ok(
                                    DeclaredView {
                                        table,
                                        definitions: self.definitions.push(definition),
                                    },
                                ),
                                Some(before) => if before.agrees_with(definition) {
                                    Ok(DeclaredView { table, ..self })
                                } else {
                                    Err(refusal("conflicting definitions of one tool"@))
                                },
                            }
                        },
                    }
                },
            },
        }
    }

    /// Declares the tools of a namespace, one after the other.
    pub open spec fn declare_all(self, namespace: Option<Seq<char>>, specs: Seq<JsonView>) -> Result<
        DeclaredView,
        ErrorView,
    >
        decreases specs.len(),
    {
        if specs.len() == 0 {
            Ok(self)
        } else {
            match self.declare_all(namespace, specs.drop_last()) {
                Err(error) => Err(error),
                Ok(declared) => declared.declare(namespace, specs.last()),
            }
        }
    }

    /// Declares a tool, or a namespace of tools.
    pub open spec fn declare_spec(self, spec: JsonView) -> Result<DeclaredView, ErrorView> {
        if spec.field("type"@) == JsonView::Text("namespace"@) {
            match string_view(spec, "name"@) {
                Err(error) => Err(error),
                Ok(namespace) => match spec.field("tools"@) {
                    JsonView::Array(children) => self.declare_all(Some(namespace), children),
                    _ => Err(refusal("namespace lacks tools"@)),
                },
            }
        } else {
            self.declare(None, spec)
        }
    }

    /// Declares a list of tools and namespaces.
    pub open spec fn declare_specs(self, specs: Seq<JsonView>) -> Result<DeclaredView, ErrorView>
        decreases specs.len(),
    {
        if specs.len() == 0 {
            Ok(self)
        } else {
            match self.declare_specs(specs.drop_last()) {
                Err(error) => Err(error),
                Ok(declared) => declared.declare_spec(specs.last()),
            }
        }
    }

    /// Declares what the items of a history add to the tools.
    pub open spec fn declare_items(self, items: Seq<JsonView>) -> Result<DeclaredView, ErrorView>
        decreases items.len(),
    {
        if items.len() == 0 {
            Ok(self)
        } else {
            match self.declare_items(items.drop_last()) {
                Err(error) => Err(error),
                Ok(declared) => if declares_tools(items.last()) {
                    declared.declare_specs(items.last().field("tools"@)->Array_0)
                } else {
                    Ok(declared)
                },
            }
        }
    }
}

proof fn lemma_declare_all_refused(
    declared: DeclaredView,
    namespace: Option<Seq<char>>,
    specs: Seq<JsonView>,
    n: int,
)
    requires
        0 <= n <= specs.len(),
        declared.declare_all(namespace, specs.take(n)) is Err,
    ensures
        declared.declare_all(namespace, specs) == declared.declare_all(namespace, specs.take(n)),
    decreases specs.len() - n,
{
    if n < specs.len() {
        assert(specs.take(n + 1).drop_last() =~= specs.take(n));
        lemma_declare_all_refused(declared, namespace, specs, n + 1);
    } else {
        assert(specs.take(n) =~= specs);
    }
}

proof fn lemma_declare_specs_refused(declared: DeclaredView, specs: Seq<JsonView>, n: int)
    requires
        0 <= n <= specs.len(),
        declared.declare_specs(specs.take(n)) is Err,
    ensures
        declared.declare_specs(specs) == declared.declare_specs(specs.take(n)),
    decreases specs.len() - n,
{
    if n < specs.len() {
        assert(specs.take(n + 1).drop_last() =~= specs.take(n));
        lemma_declare_specs_refused(declared, specs, n + 1);
    } else {
        assert(specs.take(n) =~= specs);
    }
}

proof fn lemma_declare_items_refused(declared: DeclaredView, items: Seq<JsonView>, n: int)
    requires
        0 <= n <= items.len(),
        declared.declare_items(items.take(n)) is Err,
    ensures
        declared.declare_items(items) == declared.declare_items(items.take(n)),
    decreases items.len() - n,
{
    if n < items.len() {
        assert(items.take(n + 1).drop_last() =~= items.take(n));
        lemma_declare_items_refused(declared, items, n + 1);
    } else {
        assert(items.take(n) =~= items);
    }
}

fn find_definition<'a>(definitions: &'a Vec<Definition>, name: &str) -> (found: Option<&'a Definition>)
    ensures
        match found {
            Some(found) => definition_of(views(definitions@), name@) == Some(found@) && found.name@ == name@,
            None => definition_of(views(definitions@), name@) is None,
        },
{
    let ghost all = views(definitions@);
    let mut i: usize = definitions.len();
    assert(all.take(i as int) =~= all);
    while i > 0
        invariant
            i <= definitions.len(),
            all == views(definitions@),
            definition_of(all, name@) == definition_of(all.take(i as int), name@),
        decreases i,
    {
        i = i - 1;
        assert(all.take(i + 1).last() == definitions[i as int]@);
        assert(all.take(i + 1).drop_last() =~= all.take(i as int));
        if same_text(definitions[i].name.as_str(), name) {
            return Some(&definitions[i]);
        }
    }
    None
}

impl Declared {
    pub fn none() -> (declared: Declared)
        ensures
            declared.table.wf(),
            declared@ == DeclaredView::none(),
    {
        Declared { table: ToolTable::new(), definitions: Vec::new() }
    }

    /// Declares one tool.
    pub fn declare(self, namespace: &Option<String>, spec: &Json) -> (declared: Result<Declared, ApiError>)
        requires
            self.table.wf(),
        ensures
            match declared {
                Ok(declared) => declared.table.wf() && self@.declare(optional_text(*namespace), spec@) == Ok::<
                    DeclaredView,
                    ErrorView,
                >(declared@),
                Err(error) => self@.declare(optional_text(*namespace), spec@) == Err::<
                    DeclaredView,
                    ErrorView,
                >(error@),
            },
    {
        let custom = if spec.field("type").is_text("function") {
            false
        } else if spec.field("type").is_text("custom") {
            true
        } else {
            return Err(invalid("only function and custom tools are supported"));
        };
        let tool = Tool {
            name: string(spec, "name")?.to_owned(),
            namespace: copy_optional_text(namespace),
            custom,
        };
        let mut declared = self;
        let name = register(&mut declared.table, tool)?;
        let definition = describe(name, spec, custom);
        match find_definition(&declared.definitions, definition.name.as_str()) {
            Some(before) => {
                if !same_text(before.description.as_str(), definition.description.as_str())
                    || before.parameters != definition.parameters {
                    return Err(invalid("conflicting definitions of one tool"));
                }
            },
            None => {
                declared.definitions.push(definition);
            },
        }
        Ok(declared)
    }

    /// Declares the tools of a namespace, one after the other.
    pub fn declare_all(self, namespace: &Option<String>, specs: &Vec<Json>) -> (declared: Result<
        Declared,
        ApiError,
    >)
        requires
            self.table.wf(),
        ensures
            match declared {
                Ok(declared) => declared.table.wf() && self@.declare_all(
                    optional_text(*namespace),
                    items_view(specs@),
                ) == Ok::<DeclaredView, ErrorView>(declared@),
                Err(error) => self@.declare_all(optional_text(*namespace), items_view(specs@)) == Err::<
                    DeclaredView,
                    ErrorView,
                >(error@),
            },
    {
        let ghost all = items_view(specs@);
        let ghost before = self@;
        let mut declared = self;
        let mut i: usize = 0;
        assert(all.take(0) =~= Seq::empty());
        while i < specs.len()
            invariant
                i <= specs.len(),
                all == items_view(specs@),
                before == self@,
                declared.table.wf(),
                before.declare_all(optional_text(*namespace), all.take(i as int)) == Ok::<
                    DeclaredView,
                    ErrorView,
                >(declared@),
            decreases specs.len() - i,
        {
            proof {
                assert(all.take(i + 1).drop_last() =~= all.take(i as int));
                assert(all.take(i + 1).last() == specs[i as int]@);
                if before.declare_all(optional_text(*namespace), all.take(i + 1)) is Err {
                    lemma_declare_all_refused(before, optional_text(*namespace), all, i + 1);
                }
            }
            declared = declared.declare(namespace, &specs[i])?;
            i = i + 1;
        }
        assert(all.take(specs.len() as int) =~= all);
        Ok(declared)
    }

    /// Declares a tool, or a namespace of tools.
    pub fn declare_spec(self, spec: &Json) -> (declared: Result<Declared, ApiError>)
        requires
            self.table.wf(),
        ensures
            match declared {
                Ok(declared) => declared.table.wf() && self@.declare_spec(spec@) == Ok::<
                    DeclaredView,
                    ErrorView,
                >(declared@),
                Err(error) => self@.declare_spec(spec@) == Err::<DeclaredView, ErrorView>(error@),
            },
    {
        if spec.field("type").is_text("namespace") {
            let namespace = string(spec, "name")?.to_owned();
            match spec.field("tools").as_array() {
                Some(children) => self.declare_all(&Some(namespace), children),
                None => Err(invalid("namespace lacks tools")),
            }
        } else {
            self.declare(&None, spec)
        }
    }

    /// Declares a list of tools and namespaces.
    pub fn declare_specs(self, specs: &Vec<Json>) -> (declared: Result<Declared, ApiError>)
        requires
            self.table.wf(),
        ensures
            match declared {
                Ok(declared) => declared.table.wf() && self@.declare_specs(items_view(specs@)) == Ok::<
                    DeclaredView,
                    ErrorView,
                >(declared@),
                Err(error) => self@.declare_specs(items_view(specs@)) == Err::<DeclaredView, ErrorView>(
                    error@,
                ),
            },
    {
        let ghost all = items_view(specs@);
        let ghost before = self@;
        let mut declared = self;
        let mut i: usize = 0;
        assert(all.take(0) =~= Seq::empty());
        while i < specs.len()
            invariant
                i <= specs.len(),
                all == items_view(specs@),
                before == self@,
                declared.table.wf(),
                before.declare_specs(all.take(i as int)) == Ok::<DeclaredView, ErrorView>(declared@),
            decreases specs.len() - i,
        {
            proof {
                assert(all.take(i + 1).drop_last() =~= all.take(i as int));
                assert(all.take(i + 1).last() == specs[i as int]@);
                if before.declare_specs(all.take(i + 1)) is Err {
                    lemma_declare_specs_refused(before, all, i + 1);
                }
            }
            declared = declared.declare_spec(&specs[i])?;
            i = i + 1;
        }
        assert(all.take(specs.len() as int) =~= all);
        Ok(declared)
    }

    /// Declares what the items of a history add to the tools.
    pub fn declare_items(self, items: &Vec<Json>) -> (declared: Result<Declared, ApiError>)
        requires
            self.table.wf(),
        ensures
            match declared {
                Ok(declared) => declared.table.wf() && self@.declare_items(items_view(items@)) == Ok::<
                    DeclaredView,
                    ErrorView,
                >(declared@),
                Err(error) => self@.declare_items(items_view(items@)) == Err::<DeclaredView, ErrorView>(
                    error@,
                ),
            },
    {
        let ghost all = items_view(items@);
        let ghost before = self@;
        let mut declared = self;
        let mut i: usize = 0;
        assert(all.take(0) =~= Seq::empty());
        while i < items.len()
            invariant
                i <= items.len(),
                all == items_view(items@),
                before == self@,
                declared.table.wf(),
                before.declare_items(all.take(i as int)) == Ok::<DeclaredView, ErrorView>(declared@),
            decreases items.len() - i,
        {
            proof {
                assert(all.take(i + 1).drop_last() =~= all.take(i as int));
                assert(all.take(i + 1).last() == items[i as int]@);
                if before.declare_items(all.take(i + 1)) is Err {
                    lemma_declare_items_refused(before, all, i + 1);
                }
            }
            if let Some(specs) = additional_tools(&items[i]) {
                declared = declared.declare_specs(specs)?;
            }
            i = i + 1;
        }
        assert(all.take(items.len() as int) =~= all);
        Ok(declared)
    }
}

/// What a request asks for besides its messages and tools.
#[derive(Debug)]
pub struct Settings {
    pub tool_choice: String,
    pub max_tokens: Option<u64>,
    pub effort: String,
    pub model: String,
}

pub struct SettingsView {
    pub tool_choice: Seq<char>,
    pub max_tokens: Option<u64>,
    pub effort: Seq<char>,
    pub model: Seq<char>,
}

impl View for Settings {
    type V = SettingsView;

    open spec fn view(&self) -> SettingsView {
        SettingsView {
            tool_choice: self.tool_choice@,
            max_tokens: self.max_tokens,
            effort: self.effort@,
            model: self.model@,
        }
    }
}

/// Which tools the model may choose.
pub open spec fn tool_choice_view(request: JsonView) -> Result<Seq<char>, ErrorView> {
    match request.field("tool_choice"@) {
        JsonView::Null => Ok("auto"@),
        JsonView::Text(choice) => if choice == "auto"@ || choice == "none"@ || choice == "required"@ {
            Ok(choice)
        } else {
            Err(named_choice())
        },
        _ => Err(named_choice()),
    }
}

pub open spec fn named_choice() -> ErrorView {
    refusal(
        "named tool_choice is not supported by CodeBuddy; use auto, none, or required"@,
    )
}

/// The output budget under one name. A budget that is given is a positive integer.
pub open spec fn budget_view(request: JsonView, key: Seq<char>) -> Result<Option<u64>, ErrorView> {
    if !request.has(key) {
        Ok(None)
    } else {
        match request.field(key).unsigned() {
            Some(budget) => if budget > 0 {
                Ok(Some(budget))
            } else {
                Err(refusal("output budgets must be positive integers"@))
            },
            None => Err(refusal("output budgets must be positive integers"@)),
        }
    }
}

/// One budget of two, which agree where both are given.
pub open spec fn agreed_view(
    first: Result<Option<u64>, ErrorView>,
    second: Result<Option<u64>, ErrorView>,
) -> Result<Option<u64>, ErrorView> {
    match (first, second) {
        (Err(error), _) => Err(error),
        (Ok(_), Err(error)) => Err(error),
        (Ok(None), Ok(second)) => Ok(second),
        (Ok(Some(first)), Ok(None)) => Ok(Some(first)),
        (Ok(Some(first)), Ok(Some(second))) => if first == second {
            Ok(Some(first))
        } else {
            Err(refusal("conflicting output budgets"@))
        },
    }
}

/// The output budget of a request, under any of its three names.
pub open spec fn max_tokens_view(request: JsonView) -> Result<Option<u64>, ErrorView> {
    agreed_view(
        agreed_view(
            budget_view(request, "max_output_tokens"@),
            budget_view(request, "max_completion_tokens"@),
        ),
        budget_view(request, "max_tokens"@),
    )
}

/// How hard the model is to think.
pub open spec fn effort_view(request: JsonView) -> Result<Seq<char>, ErrorView> {
    let effort = match request.field("reasoning"@).field("effort"@).text() {
        Some(effort) => effort,
        None => "high"@,
    };
    if effort == "high"@ || effort == "max"@ {
        Ok(effort)
    } else {
        Err(refusal("this adapter currently supports only high or max reasoning"@))
    }
}

pub open spec fn settings_view(request: JsonView) -> Result<SettingsView, ErrorView> {
    if !(request.field("text"@).field("format"@) is Null) {
        Err(refusal("structured response formats are not supported yet"@))
    } else {
        match tool_choice_view(request) {
            Err(error) => Err(error),
            Ok(tool_choice) => match max_tokens_view(request) {
                Err(error) => Err(error),
                Ok(max_tokens) => match effort_view(request) {
                    Err(error) => Err(error),
                    Ok(effort) => match string_view(request, "model"@) {
                        Err(error) => Err(error),
                        Ok(model) => Ok(SettingsView { tool_choice, max_tokens, effort, model }),
                    },
                },
            },
        }
    }
}

fn tool_choice(request: &Json) -> (choice: Result<String, ApiError>)
    ensures
        match choice {
            Ok(choice) => tool_choice_view(request@) == Ok::<Seq<char>, ErrorView>(choice@),
            Err(error) => tool_choice_view(request@) == Err::<Seq<char>, ErrorView>(error@),
        },
{
    let choice = request.field("tool_choice");
    if choice.is_null() {
        return Ok("auto".to_owned());
    }
    if let Some(choice) = choice.as_str() {
        if same_text(choice, "auto") || same_text(choice, "none") || same_text(choice, "required") {
            return Ok(choice.to_owned());
        }
    }
    Err(invalid("named tool_choice is not supported by CodeBuddy; use auto, none, or required"))
}

fn budget(request: &Json, key: &str) -> (budget: Result<Option<u64>, ApiError>)
    ensures
        match budget {
            Ok(budget) => budget_view(request@, key@) == Ok::<Option<u64>, ErrorView>(budget),
            Err(error) => budget_view(request@, key@) == Err::<Option<u64>, ErrorView>(error@),
        },
{
    match request.get(key) {
        None => Ok(None),
        Some(value) => {
            if let Some(budget) = value.as_u64() {
                if budget > 0 {
                    return Ok(Some(budget));
                }
            }
            Err(invalid("output budgets must be positive integers"))
        },
    }
}

fn agreed(first: Option<u64>, second: Option<u64>) -> (budget: Result<Option<u64>, ApiError>)
    ensures
        match budget {
            Ok(budget) => agreed_view(Ok(first), Ok(second)) == Ok::<Option<u64>, ErrorView>(budget),
            Err(error) => agreed_view(Ok(first), Ok(second)) == Err::<Option<u64>, ErrorView>(error@),
        },
{
    match (first, second) {
        (None, second) => Ok(second),
        (first, None) => Ok(first),
        (Some(first), Some(second)) => if first == second {
            Ok(Some(first))
        } else {
            Err(invalid("conflicting output budgets"))
        },
    }
}

fn max_tokens(request: &Json) -> (budget: Result<Option<u64>, ApiError>)
    ensures
        match budget {
            Ok(budget) => max_tokens_view(request@) == Ok::<Option<u64>, ErrorView>(budget),
            Err(error) => max_tokens_view(request@) == Err::<Option<u64>, ErrorView>(error@),
        },
{
    let first = budget(request, "max_output_tokens")?;
    let second = budget(request, "max_completion_tokens")?;
    let both = agreed(first, second)?;
    let third = budget(request, "max_tokens")?;
    agreed(both, third)
}

fn effort(request: &Json) -> (effort: Result<String, ApiError>)
    ensures
        match effort {
            Ok(effort) => effort_view(request@) == Ok::<Seq<char>, ErrorView>(effort@),
            Err(error) => effort_view(request@) == Err::<Seq<char>, ErrorView>(error@),
        },
{
    let effort = match request.field("reasoning").field("effort").as_str() {
        Some(effort) => effort,
        None => "high",
    };
    if same_text(effort, "high") || same_text(effort, "max") {
        Ok(effort.to_owned())
    } else {
        Err(invalid("this adapter currently supports only high or max reasoning"))
    }
}

/// What a request asks for besides its messages and tools.
pub fn settings(request: &Json) -> (settings: Result<Settings, ApiError>)
    ensures
        match settings {
            Ok(settings) => settings_view(request@) == Ok::<SettingsView, ErrorView>(settings@),
            Err(error) => settings_view(request@) == Err::<SettingsView, ErrorView>(error@),
        },
{
    if !request.field("text").field("format").is_null() {
        return Err(invalid("structured response formats are not supported yet"));
    }
    let tool_choice = tool_choice(request)?;
    let max_tokens = max_tokens(request)?;
    let effort = effort(request)?;
    let model = string(request, "model")?.to_owned();
    Ok(Settings { tool_choice, max_tokens, effort, model })
}

/// The tools of a request: those it lists, and those its history adds.
pub open spec fn declared_view(request: JsonView) -> Result<DeclaredView, ErrorView> {
    let listed = match request.field("tools"@) {
        JsonView::Array(specs) => DeclaredView::none().declare_specs(specs),
        _ => Ok(DeclaredView::none()),
    };
    match listed {
        Err(error) => Err(error),
        Ok(declared) => match request.field("input"@) {
            JsonView::Array(items) => declared.declare_items(items),
            _ => Err(refusal("input must be an array"@)),
        },
    }
}

/// The instructions of a request, as the message that opens it.
pub open spec fn opening(request: JsonView) -> Seq<MessageView> {
    match request.field("instructions"@) {
        JsonView::Text(text) => if text.len() > 0 {
            seq![MessageView::Plain { role: "system"@, content: text }]
        } else {
            Seq::empty()
        },
        _ => Seq::empty(),
    }
}

/// The history of a request before its first item.
pub open spec fn opened(request: JsonView, table: Map<Seq<char>, ToolView>) -> HistoryView {
    HistoryView { messages: opening(request), ..start(table) }
}

/// The messages of a request: its instructions, and then its history.
pub open spec fn messages_view(request: JsonView, table: Map<Seq<char>, ToolView>) -> Result<
    Seq<MessageView>,
    ErrorView,
> {
    match opened(request, table).read_all(request.field("input"@)->Array_0) {
        Err(error) => Err(error),
        Ok(history) => history.settled(),
    }
}

pub open spec fn messages_json(messages: Seq<MessageView>) -> Seq<JsonView> {
    messages.map_values(|message: MessageView| message.json())
}

pub open spec fn definitions_json(definitions: Seq<DefinitionView>) -> Seq<JsonView> {
    definitions.map_values(|definition: DefinitionView| definition.json())
}

/// The body of a chat request.
pub open spec fn body_view(
    settings: SettingsView,
    messages: Seq<MessageView>,
    definitions: Seq<DefinitionView>,
) -> JsonView {
    let body = JsonView::object().with("model"@, JsonView::Text(settings.model)).with(
        "messages"@,
        JsonView::Array(messages_json(messages)),
    ).with("tools"@, JsonView::Array(definitions_json(definitions))).with(
        "tool_choice"@,
        JsonView::Text(settings.tool_choice),
    ).with("stream"@, JsonView::Bool(true)).with(
        "stream_options"@,
        JsonView::object().with("include_usage"@, JsonView::Bool(true)),
    ).with("reasoning_effort"@, JsonView::Text(settings.effort)).with(
        "thinking"@,
        JsonView::object().with("type"@, JsonView::Text("enabled"@)),
    );
    match settings.max_tokens {
        Some(budget) => body.with("max_tokens"@, JsonView::Integer(budget as int)),
        None => body,
    }
}

/// What a request is encoded as: the body of a chat request, and the tools that the
/// answer may call.
pub open spec fn encode_view(request: JsonView) -> Result<(JsonView, Map<Seq<char>, ToolView>), ErrorView> {
    match declared_view(request) {
        Err(error) => Err(error),
        Ok(declared) => match messages_view(request, declared.table) {
            Err(error) => Err(error),
            Ok(messages) => match settings_view(request) {
                Err(error) => Err(error),
                Ok(settings) => Ok(
                    (body_view(settings, messages, declared.definitions), declared.table),
                ),
            },
        },
    }
}

/// The body of a chat request.
pub fn body(settings: &Settings, messages: &Vec<Message>, definitions: &Vec<Definition>) -> (body: Json)
    ensures
        body@ == body_view(settings@, views(messages@), views(definitions@)),
{
    let mut message_list: Vec<Json> = Vec::new();
    let mut i: usize = 0;
    while i < messages.len()
        invariant
            i <= messages.len(),
            message_list.len() == i,
            forall|j: int| 0 <= j < i ==> (#[trigger] message_list[j])@ == messages[j]@.json(),
        decreases messages.len() - i,
    {
        message_list.push(messages[i].json());
        i = i + 1;
    }
    assert(items_view(message_list@) =~= messages_json(views(messages@)));
    let mut definition_list: Vec<Json> = Vec::new();
    let mut i: usize = 0;
    while i < definitions.len()
        invariant
            i <= definitions.len(),
            definition_list.len() == i,
            forall|j: int| 0 <= j < i ==> (#[trigger] definition_list[j])@ == definitions[j]@.json(),
        decreases definitions.len() - i,
    {
        definition_list.push(definitions[i].json());
        i = i + 1;
    }
    assert(items_view(definition_list@) =~= definitions_json(views(definitions@)));
    let body = Json::object().with("model", Json::Text(settings.model.clone())).with(
        "messages",
        Json::Array(message_list),
    ).with("tools", Json::Array(definition_list)).with(
        "tool_choice",
        Json::Text(settings.tool_choice.clone()),
    ).with("stream", Json::Bool(true)).with(
        "stream_options",
        Json::object().with("include_usage", Json::Bool(true)),
    ).with("reasoning_effort", Json::Text(settings.effort.clone())).with(
        "thinking",
        Json::object().with("type", Json::of_text("enabled")),
    );
    match settings.max_tokens {
        Some(budget) => body.with("max_tokens", Json::Unsigned(budget)),
        None => body,
    }
}

/// Encodes a request of the agent as the body of a chat request, with the tools that
/// the answer may call. What the provider cannot carry is refused.
pub fn encode(request: Json) -> (encoded: Result<(Json, ToolTable), ApiError>)
    ensures
        match encoded {
            Ok((body, table)) => table.wf() && encode_view(request@) == Ok::<
                (JsonView, Map<Seq<char>, ToolView>),
                ErrorView,
            >((body@, table@)),
            Err(error) => encode_view(request@) == Err::<
                (JsonView, Map<Seq<char>, ToolView>),
                ErrorView,
            >(error@),
        },
{
    let mut declared = Declared::none();
    if let Some(specs) = request.field("tools").as_array() {
        declared = declared.declare_specs(specs)?;
    }
    let items = match request.field("input").as_array() {
        Some(items) => items,
        None => return Err(invalid("input must be an array")),
    };
    declared = declared.declare_items(items)?;
    let mut history = History::new(declared.table.clone());
    if let Some(instructions) = request.field("instructions").as_str() {
        if !instructions.is_empty() {
            history.messages.push(
                Message::Plain { role: "system".to_owned(), content: instructions.to_owned() },
            );
        }
    }
    assert(history@.messages =~= opening(request@));
    let messages = history.read_all(items)?.settle()?;
    let settings = settings(&request)?;
    Ok((body(&settings, &messages, &declared.definitions), declared.table))
}

} // verus!
