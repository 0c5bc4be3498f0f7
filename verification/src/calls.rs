//! The tool calls of a completion, put together from fragments.

use vstd::prelude::*;
use vstd::string::StringExecFns;

use crate::error::{invalid, outcome_view, refusal, ApiError, ErrorView};
use crate::json::{Json, JsonView};
use crate::text::{joined, optional_text, same_text};
use crate::tools::{starts_name, ToolTable, ToolView};
use crate::views::{group_views, views};

verus! {

broadcast use group_views;

/// No call has a higher index than this allows.
pub const MAX_CALLS: usize = 256;

/// A tool call that may lack parts. `names` holds the names that the fragments of
/// its name can be read as.
#[derive(Debug)]
pub struct Call {
    pub id: String,
    pub names: Vec<String>,
    pub arguments: String,
}

pub struct CallView {
    pub id: Seq<char>,
    pub names: Set<Seq<char>>,
    pub arguments: Seq<char>,
}

/// The names in a list.
pub open spec fn names_view(names: Seq<String>) -> Set<Seq<char>> {
    views(names).to_set()
}

impl View for Call {
    type V = CallView;

    open spec fn view(&self) -> CallView {
        CallView { id: self.id@, names: names_view(self.names@), arguments: self.arguments@ }
    }
}

/// A call of which nothing is known.
pub open spec fn blank_call() -> CallView {
    CallView { id: Seq::empty(), names: Set::empty(), arguments: Seq::empty() }
}

/// A fragment of a call. An absent name or arguments text is empty.
#[derive(Debug)]
pub struct Fragment {
    pub id: Option<String>,
    pub index: Option<usize>,
    pub name: String,
    pub arguments: String,
}

pub struct FragmentView {
    pub id: Option<Seq<char>>,
    pub index: Option<int>,
    pub name: Seq<char>,
    pub arguments: Seq<char>,
}

impl View for Fragment {
    type V = FragmentView;

    open spec fn view(&self) -> FragmentView {
        FragmentView {
            id: optional_text(self.id),
            index: match self.index {
                Some(index) => Some(index as int),
                None => None,
            },
            name: self.name@,
            arguments: self.arguments@,
        }
    }
}

pub open spec fn is_text_or_null(value: JsonView) -> bool {
    value is Null || value is Text
}

pub open spec fn text_or_empty(value: JsonView) -> Seq<char> {
    match value {
        JsonView::Text(text) => text,
        _ => Seq::empty(),
    }
}

/// Reads a fragment of a call.
pub open spec fn fragment_view(delta: JsonView) -> Result<FragmentView, ErrorView> {
    let name = delta.field("function"@).field("name"@);
    let arguments = delta.field("function"@).field("arguments"@);
    let id = delta.field("id"@);
    if !is_text_or_null(name) || !is_text_or_null(arguments) {
        Err(refusal("tool name and argument fragments must be strings"@))
    } else if !is_text_or_null(id) || id == JsonView::Text(Seq::empty()) {
        Err(refusal("invalid tool call ID"@))
    } else if delta.has("index"@) && !(delta.field("index"@).unsigned() matches Some(index) && index
        < MAX_CALLS) {
        Err(refusal("invalid tool call index"@))
    } else {
        Ok(
            FragmentView {
                id: id.text(),
                index: if delta.has("index"@) {
                    Some(delta.field("index"@)->Integer_0)
                } else {
                    None
                },
                name: text_or_empty(name),
                arguments: text_or_empty(arguments),
            },
        )
    }
}

fn is_text_or_null_json(value: &Json) -> (is: bool)
    ensures
        is == is_text_or_null(value@),
{
    value.is_null() || value.as_str().is_some()
}

fn text_or_empty_json(value: &Json) -> (text: String)
    ensures
        text@ == text_or_empty(value@),
{
    match value.as_str() {
        Some(text) => text.to_owned(),
        None => String::new(),
    }
}

/// Reads a fragment of a call.
pub fn fragment(delta: &Json) -> (fragment: Result<Fragment, ApiError>)
    ensures
        match fragment {
            Ok(fragment) => fragment_view(delta@) == Ok::<FragmentView, ErrorView>(fragment@) && (
            fragment.index matches Some(index) ==> index < MAX_CALLS),
            Err(error) => fragment_view(delta@) == Err::<FragmentView, ErrorView>(error@),
        },
{
    let name = delta.field("function").field("name");
    let arguments = delta.field("function").field("arguments");
    if !is_text_or_null_json(name) || !is_text_or_null_json(arguments) {
        return Err(invalid("tool name and argument fragments must be strings"));
    }
    let id = match delta.field("id").as_str() {
        Some(id) => {
            if id.is_empty() {
                assert(id@ =~= Seq::empty());
                return Err(invalid("invalid tool call ID"));
            }
            Some(id.to_owned())
        },
        None => {
            if !delta.field("id").is_null() {
                return Err(invalid("invalid tool call ID"));
            }
            None
        },
    };
    let index = match delta.get("index") {
        Some(value) => match value.as_u64() {
            Some(index) => {
                if index >= MAX_CALLS as u64 {
                    return Err(invalid("invalid tool call index"));
                }
                Some(index as usize)
            },
            None => return Err(invalid("invalid tool call index")),
        },
        None => None,
    };
    Ok(Fragment { id, index, name: text_or_empty_json(name), arguments: text_or_empty_json(arguments) })
}

/// Whether this is the first call of that ID.
pub open spec fn is_first(calls: Map<int, CallView>, id: Seq<char>, index: int) -> bool {
    &&& calls.dom().contains(index)
    &&& calls[index].id == id
    &&& forall|other: int| 0 <= other < index && #[trigger] calls.dom().contains(other) ==> calls[other].id != id
}

/// The index of the call that a fragment belongs to: the one it gives, or that of the
/// call with its ID.
pub open spec fn located(calls: Map<int, CallView>, fragment: FragmentView) -> Result<int, ErrorView> {
    match (fragment.index, fragment.id) {
        (Some(index), _) => Ok(index),
        (None, Some(id)) => if exists|index: int| 0 <= index && is_first(calls, id, index) {
            Ok(choose|index: int| 0 <= index && is_first(calls, id, index))
        } else {
            Err(refusal("tool fragment lacks a known ID or index"@))
        },
        (None, None) => Err(refusal("tool fragment lacks a known ID or index"@)),
    }
}

/// Whether another call has that ID.
pub open spec fn taken_elsewhere(calls: Map<int, CallView>, id: Seq<char>, index: int) -> bool {
    exists|other: int| #[trigger] calls.dom().contains(other) && other != index && calls[other].id == id
}

/// The names that a name fragment leaves possible. It may continue what was read so
/// far, as long as an advertised name starts like that. And where what was read is
/// an advertised name, the fragment may repeat it.
pub open spec fn extended(
    names: Set<Seq<char>>,
    part: Seq<char>,
    tools: Map<Seq<char>, ToolView>,
) -> Set<Seq<char>> {
    Set::new(
        |name: Seq<char>|
            {
                ||| exists|before: Seq<char>| #[trigger]
                    names.contains(before) && name == before + part && starts_name(tools, name)
                ||| names.contains(name) && name == part && tools.dom().contains(name)
            },
    )
}

/// What the fragments of a name were read as before the next one.
pub open spec fn read_so_far(names: Set<Seq<char>>) -> Set<Seq<char>> {
    if names == Set::<Seq<char>>::empty() {
        set![Seq::<char>::empty()]
    } else {
        names
    }
}

impl CallView {
    /// The call with one more fragment, or as far as a fragment that is refused
    /// leads: its ID is taken before its name is read.
    pub open spec fn with_fragment(self, fragment: FragmentView, tools: Map<Seq<char>, ToolView>) -> (
        CallView,
        Result<(), ErrorView>,
    ) {
        if fragment.id matches Some(id) && self.id.len() > 0 && self.id != id {
            (self, Err(refusal("tool call ID changed mid-stream"@)))
        } else {
            let id = match fragment.id {
                Some(id) => id,
                None => self.id,
            };
            let names = if fragment.name.len() == 0 {
                self.names
            } else {
                extended(read_so_far(self.names), fragment.name, tools)
            };
            if fragment.name.len() > 0 && names == Set::<Seq<char>>::empty() {
                (
                    CallView { id, names, arguments: self.arguments },
                    Err(refusal("unadvertised tool name fragments"@)),
                )
            } else {
                (CallView { id, names, arguments: self.arguments + fragment.arguments }, Ok(()))
            }
        }
    }
}

/// The call of that index; a blank one where there is none.
pub open spec fn call_at(calls: Map<int, CallView>, index: int) -> CallView {
    if calls.dom().contains(index) {
        calls[index]
    } else {
        blank_call()
    }
}

/// The calls with one more fragment, or as far as a fragment that is refused leads.
pub open spec fn with_fragment(
    calls: Map<int, CallView>,
    fragment: FragmentView,
    tools: Map<Seq<char>, ToolView>,
) -> (Map<int, CallView>, Result<(), ErrorView>) {
    match located(calls, fragment) {
        Err(error) => (calls, Err(error)),
        Ok(index) => if fragment.id matches Some(id) && taken_elsewhere(calls, id, index) {
            (calls, Err(refusal("tool call ID belongs to a different index"@)))
        } else {
            let (call, outcome) = call_at(calls, index).with_fragment(fragment, tools);
            (calls.insert(index, call), outcome)
        },
    }
}

/// Reads a fragment and adds it to the calls.
pub open spec fn with_delta(
    calls: Map<int, CallView>,
    delta: JsonView,
    tools: Map<Seq<char>, ToolView>,
) -> (Map<int, CallView>, Result<(), ErrorView>) {
    match fragment_view(delta) {
        Err(error) => (calls, Err(error)),
        Ok(fragment) => with_fragment(calls, fragment, tools),
    }
}

proof fn lemma_name_in(names: Seq<String>, i: int)
    requires
        0 <= i < names.len(),
    ensures
        names_view(names).contains(names[i]@),
{
    assert(views(names)[i] == names[i]@);
}

proof fn lemma_names_push(names: Seq<String>, name: String)
    ensures
        names_view(names.push(name)) == names_view(names).insert(name@),
{
    let after = names_view(names.push(name));
    assert forall|n: Seq<char>| after.contains(n) == names_view(names).insert(name@).contains(n) by {
        if names_view(names).contains(n) {
            let i = choose|i: int| 0 <= i < views(names).len() && views(names)[i] == n;
            lemma_name_in(names.push(name), i);
        }
        lemma_name_in(names.push(name), names.len() as int);
        if after.contains(n) {
            let i = choose|i: int| 0 <= i < views(names.push(name)).len() && views(names.push(name))[i] == n;
            if i < names.len() {
                lemma_name_in(names, i);
            }
        }
    }
    assert(after =~= names_view(names).insert(name@));
}

/// What one reading of a name contributes to the readings after the next fragment.
spec fn continues(before: Seq<char>, part: Seq<char>, tools: Map<Seq<char>, ToolView>, name: Seq<char>) -> bool {
    ||| name == before + part && starts_name(tools, name)
    ||| name == before && name == part && tools.dom().contains(name)
}

/// The names that a name fragment leaves possible.
fn extend_names(names: &Vec<String>, part: &str, tools: &ToolTable) -> (extended_names: Vec<String>)
    requires
        tools.wf(),
    ensures
        names_view(extended_names@) == extended(names_view(names@), part@, tools@),
{
    let mut result: Vec<String> = Vec::new();
    let mut i: usize = 0;
    assert(names_view(result@) =~= Set::empty());
    while i < names.len()
        invariant
            i <= names.len(),
            tools.wf(),
            forall|name: Seq<char>|
                #![trigger names_view(result@).contains(name)]
                names_view(result@).contains(name) == exists|j: int|
                    0 <= j < i && continues((#[trigger] names[j])@, part@, tools@, name),
        decreases names.len() - i,
    {
        let ghost before = result@;
        let name = names[i].as_str();
        let appended = joined(name, part);
        if tools.has_prefix(appended.as_str()) {
            proof {
                lemma_names_push(result@, appended);
            }
            result.push(appended);
        }
        let ghost between = result@;
        if same_text(name, part) && tools.get(name).is_some() {
            let repeated = name.to_owned();
            proof {
                lemma_names_push(result@, repeated);
            }
            result.push(repeated);
        }
        proof {
            assert forall|n: Seq<char>|
                #![trigger names_view(result@).contains(n)]
                names_view(result@).contains(n) == exists|j: int|
                    0 <= j < i + 1 && continues((#[trigger] names[j])@, part@, tools@, n) by {
                assert(names_view(result@).contains(n) == (names_view(before).contains(n) || continues(
                    names[i as int]@,
                    part@,
                    tools@,
                    n,
                )));
                if names_view(before).contains(n) {
                    let j = choose|j: int| 0 <= j < i && continues((#[trigger] names[j])@, part@, tools@, n);
                    assert(continues(names[j]@, part@, tools@, n));
                }
                if exists|j: int| 0 <= j < i + 1 && continues((#[trigger] names[j])@, part@, tools@, n) {
                    let j = choose|j: int| 0 <= j < i + 1 && continues((#[trigger] names[j])@, part@, tools@, n);
                    if j < i {
                        assert(names_view(before).contains(n));
                    }
                }
            }
        }
        i = i + 1;
    }
    proof {
        let wanted = extended(names_view(names@), part@, tools@);
        assert forall|n: Seq<char>| names_view(result@).contains(n) == wanted.contains(n) by {
            if names_view(result@).contains(n) {
                let j = choose|j: int| 0 <= j < names.len() && continues((#[trigger] names[j])@, part@, tools@, n);
                lemma_name_in(names@, j);
            }
            if wanted.contains(n) {
                if exists|b: Seq<char>| #[trigger]
                    names_view(names@).contains(b) && n == b + part@ && starts_name(tools@, n) {
                    let b = choose|b: Seq<char>| #[trigger]
                        names_view(names@).contains(b) && n == b + part@ && starts_name(tools@, n);
                    let j = choose|j: int| 0 <= j < views(names@).len() && views(names@)[j] == b;
                    assert(continues(names[j]@, part@, tools@, n));
                } else {
                    let j = choose|j: int| 0 <= j < views(names@).len() && views(names@)[j] == n;
                    assert(continues(names[j]@, part@, tools@, n));
                }
            }
        }
        assert(names_view(result@) =~= wanted);
    }
    result
}

impl Call {
    fn blank() -> (call: Call)
        ensures
            call@ == blank_call(),
    {
        let names: Vec<String> = Vec::new();
        assert(names_view(names@) =~= Set::empty());
        Call { id: String::new(), names, arguments: String::new() }
    }

    /// Adds a fragment.
    pub fn add_fragment(&mut self, fragment: &Fragment, tools: &ToolTable) -> (outcome: Result<(), ApiError>)
        requires
            tools.wf(),
        ensures
            old(self)@.with_fragment(fragment@, tools@) == (final(self)@, outcome_view(outcome)),
    {
        if let Some(id) = &fragment.id {
            if !self.id.as_str().is_empty() && !same_text(self.id.as_str(), id.as_str()) {
                return Err(invalid("tool call ID changed mid-stream"));
            }
            self.id = id.clone();
        }
        if !fragment.name.as_str().is_empty() {
            let mut names: Vec<String> = Vec::new();
            std::mem::swap(&mut names, &mut self.names);
            if names.len() == 0 {
                assert(names_view(names@) =~= Set::empty());
                let unread = String::new();
                proof {
                    lemma_names_push(names@, unread);
                }
                names.push(unread);
            } else {
                proof {
                    lemma_name_in(names@, 0);
                }
            }
            assert(names_view(names@) == read_so_far(old(self)@.names));
            self.names = extend_names(&names, fragment.name.as_str(), tools);
            if self.names.len() == 0 {
                assert(names_view(self.names@) =~= Set::empty());
                return Err(invalid("unadvertised tool name fragments"));
            }
            proof {
                lemma_name_in(self.names@, 0);
            }
        }
        self.arguments.append(fragment.arguments.as_str());
        Ok(())
    }
}

/// The calls of a completion by their indexes.
#[derive(Debug)]
pub struct Calls {
    slots: Vec<Option<Call>>,
}

pub open spec fn slots_view(slots: Seq<Option<Call>>) -> Map<int, CallView> {
    Map::new(|i: int| 0 <= i < slots.len() && slots[i] is Some, |i: int| slots[i]->Some_0@)
}

impl View for Calls {
    type V = Map<int, CallView>;

    closed spec fn view(&self) -> Map<int, CallView> {
        slots_view(self.slots@)
    }
}

impl Calls {
    /// There is room for every index, and for no more.
    pub closed spec fn wf(&self) -> bool {
        self.slots.len() <= MAX_CALLS
    }

    pub fn new() -> (calls: Calls)
        ensures
            calls.wf(),
            calls@ == Map::<int, CallView>::empty(),
    {
        let calls = Calls { slots: Vec::new() };
        assert(calls@ =~= Map::<int, CallView>::empty());
        calls
    }

    /// Whether there is no call.
    pub fn is_empty(&self) -> (empty: bool)
        ensures
            empty == (self@ == Map::<int, CallView>::empty()),
    {
        let mut i: usize = 0;
        while i < self.slots.len()
            invariant
                i <= self.slots.len(),
                forall|j: int| 0 <= j < i ==> (#[trigger] self.slots[j]) is None,
            decreases self.slots.len() - i,
        {
            if self.slots[i].is_some() {
                assert(self@.dom().contains(i as int));
                return false;
            }
            i = i + 1;
        }
        assert(self@ =~= Map::<int, CallView>::empty());
        true
    }

    /// The call of that index.
    pub fn get(&self, index: usize) -> (call: Option<&Call>)
        ensures
            match call {
                Some(call) => self@.dom().contains(index as int) && self@[index as int] == call@,
                None => !self@.dom().contains(index as int),
            },
    {
        if index < self.slots.len() {
            self.slots[index].as_ref()
        } else {
            None
        }
    }

    /// The index of the first call of that ID.
    fn find(&self, id: &str) -> (found: Option<usize>)
        requires
            self.wf(),
        ensures
            match found {
                Some(index) => is_first(self@, id@, index as int) && index < MAX_CALLS,
                None => forall|index: int| 0 <= index ==> !is_first(self@, id@, index),
            },
    {
        let mut i: usize = 0;
        while i < self.slots.len()
            invariant
                i <= self.slots.len(),
                self.wf(),
                forall|j: int| 0 <= j < i && #[trigger] self@.dom().contains(j) ==> self@[j].id != id@,
            decreases self.slots.len() - i,
        {
            if let Some(call) = self.get(i) {
                if same_text(call.id.as_str(), id) {
                    return Some(i);
                }
            }
            i = i + 1;
        }
        None
    }

    /// Whether another call has that ID.
    fn is_taken_elsewhere(&self, id: &str, index: usize) -> (taken: bool)
        ensures
            taken == taken_elsewhere(self@, id@, index as int),
    {
        let mut i: usize = 0;
        while i < self.slots.len()
            invariant
                i <= self.slots.len(),
                forall|j: int| 0 <= j < i && #[trigger] self@.dom().contains(j) && j != index ==> self@[j].id != id@,
            decreases self.slots.len() - i,
        {
            if i != index {
                if let Some(call) = self.get(i) {
                    if same_text(call.id.as_str(), id) {
                        return true;
                    }
                }
            }
            i = i + 1;
        }
        false
    }

    /// Takes the call of that index out; a blank one where there is none.
    fn take(&mut self, index: usize) -> (call: Call)
        requires
            old(self).wf(),
            index < MAX_CALLS,
        ensures
            final(self).wf(),
            index < final(self).slots.len(),
            final(self)@ == old(self)@.remove(index as int),
            call@ == call_at(old(self)@, index as int),
    {
        let ghost before = self.slots@;
        while self.slots.len() <= index
            invariant
                self.wf(),
                index < MAX_CALLS,
                before.len() <= self.slots.len(),
                forall|i: int| 0 <= i < before.len() ==> self.slots[i] == before[i],
                forall|i: int| before.len() <= i < self.slots.len() ==> self.slots[i] is None,
            decreases index - self.slots.len() + 1,
        {
            self.slots.push(None);
        }
        let mut slot: Option<Call> = None;
        std::mem::swap(&mut slot, &mut self.slots[index]);
        assert(slots_view(self.slots@) =~= slots_view(before).remove(index as int));
        match slot {
            Some(call) => call,
            None => Call::blank(),
        }
    }

    /// Adds a fragment.
    pub fn add_fragment(&mut self, fragment: &Fragment, tools: &ToolTable) -> (outcome: Result<(), ApiError>)
        requires
            old(self).wf(),
            tools.wf(),
            fragment.index matches Some(index) ==> index < MAX_CALLS,
        ensures
            final(self).wf(),
            with_fragment(old(self)@, fragment@, tools@) == (final(self)@, outcome_view(outcome)),
    {
        let index: usize = match (fragment.index, &fragment.id) {
            (Some(index), _) => index,
            (None, Some(id)) => match self.find(id.as_str()) {
                Some(index) => index,
                None => return Err(invalid("tool fragment lacks a known ID or index")),
            },
            (None, None) => return Err(invalid("tool fragment lacks a known ID or index")),
        };
        assert(located(old(self)@, fragment@) == Ok::<int, ErrorView>(index as int));
        if let Some(id) = &fragment.id {
            if self.is_taken_elsewhere(id.as_str(), index) {
                return Err(invalid("tool call ID belongs to a different index"));
            }
        }
        let mut call = self.take(index);
        let outcome = call.add_fragment(fragment, tools);
        let ghost before = self.slots@;
        let ghost entered = call@;
        self.slots[index] = Some(call);
        assert(slots_view(self.slots@) =~= slots_view(before).insert(index as int, entered));
        assert(self@ =~= old(self)@.insert(index as int, entered));
        outcome
    }

    /// Reads a fragment and adds it to the calls.
    pub fn add_delta(&mut self, delta: &Json, tools: &ToolTable) -> (outcome: Result<(), ApiError>)
        requires
            old(self).wf(),
            tools.wf(),
        ensures
            final(self).wf(),
            with_delta(old(self)@, delta@, tools@) == (final(self)@, outcome_view(outcome)),
    {
        let fragment = fragment(delta)?;
        self.add_fragment(&fragment, tools)
    }
}

} // verus!
