//! The tools that a request advertises, and the names they have on the wire.

use std::collections::hash_map::DefaultHasher;
use std::hash::Hasher;

use vstd::prelude::*;
use vstd::string::StringExecFns;
use vstd::std_specs::hash::DefaultHasherAdditionalSpecFns;

use crate::error::{invalid, refusal, ApiError, ErrorView};
use crate::text::{copy_optional_text, joined, optional_text, same_optional_text, same_text, starts_with};

verus! {

/// A tool as the agent knows it.
#[derive(Debug)]
pub struct Tool {
    pub name: String,
    pub namespace: Option<String>,
    pub custom: bool,
}

/// The content of a tool.
pub struct ToolView {
    pub name: Seq<char>,
    pub namespace: Option<Seq<char>>,
    pub custom: bool,
}

impl View for Tool {
    type V = ToolView;

    open spec fn view(&self) -> ToolView {
        ToolView { name: self.name@, namespace: optional_text(self.namespace), custom: self.custom }
    }
}

impl Clone for Tool {
    fn clone(&self) -> (copy: Tool)
        ensures
            copy@ == self@,
    {
        Tool {
            name: self.name.clone(),
            namespace: copy_optional_text(&self.namespace),
            custom: self.custom,
        }
    }
}

impl PartialEq for Tool {
    fn eq(&self, other: &Tool) -> (same: bool) {
        same_text(self.name.as_str(), other.name.as_str()) && same_optional_text(
            &self.namespace,
            &other.namespace,
        ) && self.custom == other.custom
    }
}

impl vstd::std_specs::cmp::PartialEqSpecImpl for Tool {
    open spec fn obeys_eq_spec() -> bool {
        true
    }

    open spec fn eq_spec(&self, other: &Tool) -> bool {
        self@ == other@
    }
}

/// The longest name that goes on the wire as it is.
pub const MAX_NAME: usize = 64;

/// A character that every provider takes in a tool name.
pub open spec fn is_plain(c: char) -> bool {
    ||| 'a' <= c <= 'z'
    ||| 'A' <= c <= 'Z'
    ||| '0' <= c <= '9'
    ||| c == '_'
    ||| c == '-'
}

/// A name that goes on the wire as it is. Its characters are ASCII, so that it has
/// as many bytes as characters.
pub open spec fn is_wire_name(name: Seq<char>) -> bool {
    name.len() <= MAX_NAME && forall|i: int| 0 <= i < name.len() ==> is_plain(#[trigger] name[i])
}

/// The namespace and the name in one.
pub open spec fn flat_name(tool: ToolView) -> Seq<char> {
    match tool.namespace {
        Some(namespace) => namespace + "__"@ + tool.name,
        None => tool.name,
    }
}

/// The digit for a number below sixteen.
pub open spec fn hex_digit(n: int) -> Seq<char> {
    if n == 0 {
        "0"@
    } else if n == 1 {
        "1"@
    } else if n == 2 {
        "2"@
    } else if n == 3 {
        "3"@
    } else if n == 4 {
        "4"@
    } else if n == 5 {
        "5"@
    } else if n == 6 {
        "6"@
    } else if n == 7 {
        "7"@
    } else if n == 8 {
        "8"@
    } else if n == 9 {
        "9"@
    } else if n == 10 {
        "a"@
    } else if n == 11 {
        "b"@
    } else if n == 12 {
        "c"@
    } else if n == 13 {
        "d"@
    } else if n == 14 {
        "e"@
    } else {
        "f"@
    }
}

/// The last `digits` hexadecimal digits of a number.
pub open spec fn hex(n: int, digits: nat) -> Seq<char>
    decreases digits,
{
    if digits == 0 {
        Seq::empty()
    } else {
        hex(n / 16, (digits - 1) as nat) + hex_digit(n % 16)
    }
}

/// What is written to the hasher for a tool: its name, whether it has a namespace,
/// the namespace, and whether it is custom.
pub open spec fn hashed(tool: ToolView) -> Seq<Seq<u8>> {
    let name = seq![vstd::utf8::encode_utf8(tool.name), seq![0xffu8]];
    let namespace = match tool.namespace {
        Some(namespace) => seq![
            seq![1u8, 0, 0, 0, 0, 0, 0, 0],
            vstd::utf8::encode_utf8(namespace),
            seq![0xffu8],
        ],
        None => seq![seq![0u8, 0, 0, 0, 0, 0, 0, 0]],
    };
    name + namespace + seq![seq![if tool.custom { 1u8 } else { 0u8 }]]
}

/// The name of a tool on the wire.
pub open spec fn alias(tool: ToolView) -> Seq<char> {
    if is_wire_name(flat_name(tool)) {
        flat_name(tool)
    } else {
        "tool_"@ + hex(DefaultHasher::spec_finish(hashed(tool)) as int, 16)
    }
}

/// Whether a text is the start of a name in the table.
pub open spec fn starts_name(table: Map<Seq<char>, ToolView>, text: Seq<char>) -> bool {
    exists|name: Seq<char>| #[trigger] table.dom().contains(name) && text.is_prefix_of(name)
}

/// The table after a tool is registered.
pub open spec fn registered(table: Map<Seq<char>, ToolView>, tool: ToolView) -> Map<Seq<char>, ToolView> {
    if flat_name(tool).len() == 0 {
        table
    } else {
        table.insert(alias(tool), tool)
    }
}

/// What registering a tool gives: its name on the wire, or why it is refused.
pub open spec fn registration(table: Map<Seq<char>, ToolView>, tool: ToolView) -> Result<Seq<char>, ErrorView> {
    if flat_name(tool).len() == 0 {
        Err(refusal("empty tool name"@))
    } else if table.dom().contains(alias(tool)) && table[alias(tool)] != tool {
        Err(refusal("flattened tool names collide"@))
    } else {
        Ok(alias(tool))
    }
}

fn hex_digit_text(n: u64) -> (text: &'static str)
    requires
        n < 16,
    ensures
        text@ == hex_digit(n as int),
{
    match n {
        0 => "0",
        1 => "1",
        2 => "2",
        3 => "3",
        4 => "4",
        5 => "5",
        6 => "6",
        7 => "7",
        8 => "8",
        9 => "9",
        10 => "a",
        11 => "b",
        12 => "c",
        13 => "d",
        14 => "e",
        _ => "f",
    }
}

fn hex_text(n: u64, digits: usize) -> (text: String)
    ensures
        text@ == hex(n as int, digits as nat),
    decreases digits,
{
    if digits == 0 {
        String::new()
    } else {
        let mut text = hex_text(n / 16, digits - 1);
        text.append(hex_digit_text(n % 16));
        text
    }
}

fn is_plain_char(c: char) -> (plain: bool)
    ensures
        plain == is_plain(c),
{
    ('a' <= c && c <= 'z') || ('A' <= c && c <= 'Z') || ('0' <= c && c <= '9') || c == '_' || c == '-'
}

fn is_wire_text(name: &str) -> (plain: bool)
    ensures
        plain == is_wire_name(name@),
{
    let mut count: usize = 0;
    for c in chars: name.chars()
        invariant
            chars.seq() == name@,
            count == chars.index(),
            count <= MAX_NAME,
            forall|i: int| 0 <= i < count ==> is_plain(#[trigger] name@[i]),
    {
        if count == MAX_NAME || !is_plain_char(c) {
            return false;
        }
        count = count + 1;
    }
    true
}

fn tool_hash(tool: &Tool) -> (hash: u64)
    ensures
        hash == DefaultHasher::spec_finish(hashed(tool@)),
{
    let mut hasher = DefaultHasher::new();
    hasher.write(tool.name.as_str().as_bytes());
    hasher.write(&[0xffu8]);
    match &tool.namespace {
        Some(namespace) => {
            hasher.write(&[1u8, 0, 0, 0, 0, 0, 0, 0]);
            hasher.write(namespace.as_str().as_bytes());
            hasher.write(&[0xffu8]);
        },
        None => {
            hasher.write(&[0u8, 0, 0, 0, 0, 0, 0, 0]);
        },
    }
    if tool.custom {
        hasher.write(&[1u8]);
    } else {
        hasher.write(&[0u8]);
    }
    assert(hasher@ =~~= hashed(tool@));
    hasher.finish()
}

/// The name of a tool on the wire.
pub fn wire_name(tool: &Tool) -> (name: String)
    ensures
        name@ == alias(tool@),
{
    let flat: String = flat_text(tool);
    if is_wire_text(flat.as_str()) {
        flat
    } else {
        joined("tool_", hex_text(tool_hash(tool), 16).as_str())
    }
}

fn flat_text(tool: &Tool) -> (name: String)
    ensures
        name@ == flat_name(tool@),
{
    match &tool.namespace {
        Some(namespace) => joined(joined(namespace.as_str(), "__").as_str(), tool.name.as_str()),
        None => tool.name.clone(),
    }
}

/// What a list of named tools maps each name to.
pub open spec fn entries_view(entries: Seq<(String, Tool)>) -> Map<Seq<char>, ToolView>
    decreases entries.len(),
{
    if entries.len() == 0 {
        Map::empty()
    } else {
        entries_view(entries.drop_last()).insert(entries.last().0@, entries.last().1@)
    }
}

/// No name occurs twice.
pub open spec fn distinct_names(entries: Seq<(String, Tool)>) -> bool {
    forall|i: int, j: int| 0 <= i < j < entries.len() ==> (#[trigger] entries[i]).0@ != (#[trigger] entries[j]).0@
}

proof fn lemma_entries(entries: Seq<(String, Tool)>)
    requires
        distinct_names(entries),
    ensures
        entries_view(entries).dom().finite(),
        entries_view(entries).len() == entries.len(),
        forall|i: int| 0 <= i < entries.len() ==> entries_view(entries).dom().contains((#[trigger] entries[i]).0@)
            && entries_view(entries)[entries[i].0@] == entries[i].1@,
        forall|name: Seq<char>| #[trigger] entries_view(entries).dom().contains(name) ==> exists|i: int|
            0 <= i < entries.len() && (#[trigger] entries[i]).0@ == name,
    decreases entries.len(),
{
    if entries.len() > 0 {
        let rest = entries.drop_last();
        assert forall|i: int, j: int| 0 <= i < j < rest.len() implies (#[trigger] rest[i]).0@ != (#[trigger] rest[j]).0@ by {
            assert(entries[i].0@ != entries[j].0@);
        }
        lemma_entries(rest);
        let last = entries.last().0@;
        assert(!entries_view(rest).dom().contains(last)) by {
            if entries_view(rest).dom().contains(last) {
                let i = choose|i: int| 0 <= i < rest.len() && (#[trigger] rest[i]).0@ == last;
                assert(entries[i].0@ != entries[entries.len() - 1].0@);
            }
        }
        assert(entries_view(entries).dom() =~= entries_view(rest).dom().insert(last));
        assert forall|i: int| 0 <= i < entries.len() implies entries_view(entries).dom().contains(
            (#[trigger] entries[i]).0@,
        ) && entries_view(entries)[entries[i].0@] == entries[i].1@ by {
            if i < rest.len() {
                assert(rest[i] == entries[i]);
            }
        }
        assert forall|name: Seq<char>| #[trigger] entries_view(entries).dom().contains(name) implies exists|i: int|
            0 <= i < entries.len() && (#[trigger] entries[i]).0@ == name by {
            if name == last {
                assert(entries[entries.len() - 1].0@ == name);
            } else {
                let i = choose|i: int| 0 <= i < rest.len() && (#[trigger] rest[i]).0@ == name;
                assert(entries[i].0@ == name);
            }
        }
    }
}

/// Tools by their names on the wire.
#[derive(Debug)]
pub struct ToolTable {
    entries: Vec<(String, Tool)>,
}

impl View for ToolTable {
    type V = Map<Seq<char>, ToolView>;

    closed spec fn view(&self) -> Map<Seq<char>, ToolView> {
        entries_view(self.entries@)
    }
}

impl ToolTable {
    /// Each name has one entry.
    pub closed spec fn wf(&self) -> bool {
        distinct_names(self.entries@)
    }

    pub fn new() -> (table: ToolTable)
        ensures
            table.wf(),
            table@ == Map::<Seq<char>, ToolView>::empty(),
    {
        ToolTable { entries: Vec::new() }
    }

    /// The number of names.
    pub fn len(&self) -> (count: usize)
        requires
            self.wf(),
        ensures
            count == self@.len(),
    {
        proof {
            lemma_entries(self.entries@);
        }
        self.entries.len()
    }

    fn find(&self, name: &str) -> (found: Option<usize>)
        requires
            self.wf(),
        ensures
            match found {
                Some(i) => i < self.entries.len() && self.entries[i as int].0@ == name@
                    && self@.dom().contains(name@) && self@[name@] == self.entries[i as int].1@,
                None => !self@.dom().contains(name@),
            },
    {
        let mut i: usize = 0;
        while i < self.entries.len()
            invariant
                i <= self.entries.len(),
                self.wf(),
                forall|j: int| 0 <= j < i ==> (#[trigger] self.entries[j]).0@ != name@,
            decreases self.entries.len() - i,
        {
            if same_text(self.entries[i].0.as_str(), name) {
                proof {
                    lemma_entries(self.entries@);
                }
                return Some(i);
            }
            i = i + 1;
        }
        proof {
            lemma_entries(self.entries@);
        }
        None
    }

    /// The tool of that name.
    pub fn get(&self, name: &str) -> (tool: Option<&Tool>)
        requires
            self.wf(),
        ensures
            match tool {
                Some(tool) => self@.dom().contains(name@) && self@[name@] == tool@,
                None => !self@.dom().contains(name@),
            },
    {
        match self.find(name) {
            Some(i) => Some(&self.entries[i].1),
            None => None,
        }
    }

    /// Whether a name starts like that.
    pub fn has_prefix(&self, prefix: &str) -> (has: bool)
        requires
            self.wf(),
        ensures
            has == starts_name(self@, prefix@),
    {
        let mut i: usize = 0;
        while i < self.entries.len()
            invariant
                i <= self.entries.len(),
                self.wf(),
                forall|j: int| 0 <= j < i ==> !prefix@.is_prefix_of((#[trigger] self.entries[j]).0@),
            decreases self.entries.len() - i,
        {
            if starts_with(self.entries[i].0.as_str(), prefix) {
                proof {
                    lemma_entries(self.entries@);
                    assert(self@.dom().contains(self.entries[i as int].0@));
                }
                return true;
            }
            i = i + 1;
        }
        proof {
            lemma_entries(self.entries@);
        }
        false
    }

    /// Enters a tool, and gives back the one that had its name.
    fn insert(&mut self, name: String, tool: Tool) -> (previous: Option<Tool>)
        requires
            old(self).wf(),
        ensures
            final(self).wf(),
            final(self)@ == old(self)@.insert(name@, tool@),
            match previous {
                Some(previous) => old(self)@.dom().contains(name@) && old(self)@[name@] == previous@,
                None => !old(self)@.dom().contains(name@),
            },
    {
        let ghost before = self.entries@;
        proof {
            lemma_entries(before);
        }
        match self.find(name.as_str()) {
            Some(i) => {
                let previous = self.entries[i].1.clone();
                let ghost wire = name@;
                let ghost entered = tool@;
                self.entries[i] = (name, tool);
                proof {
                    assert(distinct_names(self.entries@)) by {
                        assert forall|a: int, b: int| 0 <= a < b < self.entries@.len() implies (#[trigger] self.entries@[a]).0@
                            != (#[trigger] self.entries@[b]).0@ by {
                            assert(before[a].0@ != before[b].0@);
                        }
                    }
                    lemma_entries(self.entries@);
                    let after = entries_view(self.entries@);
                    let wanted = entries_view(before).insert(wire, entered);
                    assert forall|n: Seq<char>| after.dom().contains(n) == wanted.dom().contains(n) by {
                        if after.dom().contains(n) {
                            let k = choose|k: int| 0 <= k < self.entries@.len() && (#[trigger] self.entries@[k]).0@ == n;
                            assert(before[k].0@ == n);
                        }
                        if wanted.dom().contains(n) {
                            let k = choose|k: int| 0 <= k < before.len() && (#[trigger] before[k]).0@ == n;
                            assert(self.entries@[k].0@ == n);
                        }
                    }
                    assert forall|n: Seq<char>| after.dom().contains(n) implies after[n] == wanted[n] by {
                        let k = choose|k: int| 0 <= k < self.entries@.len() && (#[trigger] self.entries@[k]).0@ == n;
                        assert(before[k].0@ == n);
                    }
                    assert(after =~= wanted);
                }
                Some(previous)
            },
            None => {
                self.entries.push((name, tool));
                proof {
                    assert(self.entries@.drop_last() =~= before);
                    assert forall|a: int, b: int| 0 <= a < b < self.entries@.len() implies (#[trigger] self.entries@[a]).0@
                        != (#[trigger] self.entries@[b]).0@ by {
                        if b < before.len() {
                            assert(before[a].0@ != before[b].0@);
                        } else {
                            assert(entries_view(before).dom().contains(before[a].0@));
                        }
                    }
                }
                None
            },
        }
    }
}

impl Clone for ToolTable {
    fn clone(&self) -> (copy: ToolTable)
        ensures
            copy@ == self@,
            copy.wf() == self.wf(),
    {
        let mut entries: Vec<(String, Tool)> = Vec::new();
        let mut i: usize = 0;
        while i < self.entries.len()
            invariant
                i <= self.entries.len(),
                entries.len() == i,
                entries_view(entries@) == entries_view(self.entries@.take(i as int)),
                forall|j: int| 0 <= j < i ==> (#[trigger] entries[j]).0@ == self.entries[j].0@,
            decreases self.entries.len() - i,
        {
            let ghost before = entries@;
            entries.push((self.entries[i].0.clone(), self.entries[i].1.clone()));
            assert(entries@.drop_last() =~= before);
            assert(self.entries@.take(i + 1).drop_last() =~= self.entries@.take(i as int));
            i = i + 1;
        }
        assert(self.entries@.take(self.entries.len() as int) =~= self.entries@);
        proof {
            if distinct_names(self.entries@) {
                assert forall|a: int, b: int| 0 <= a < b < entries@.len() implies (#[trigger] entries@[a]).0@
                    != (#[trigger] entries@[b]).0@ by {
                    assert(self.entries@[a].0@ != self.entries@[b].0@);
                }
            }
            if distinct_names(entries@) {
                assert forall|a: int, b: int| 0 <= a < b < self.entries@.len() implies (
                #[trigger] self.entries@[a]).0@ != (#[trigger] self.entries@[b]).0@ by {
                    assert(entries@[a].0@ != entries@[b].0@);
                }
            }
        }
        ToolTable { entries }
    }
}

/// Enters a tool under its name on the wire, which is the result. A tool without a
/// name, and one whose name on the wire another tool had, are refused.
pub fn register(tools: &mut ToolTable, tool: Tool) -> (name: Result<String, ApiError>)
    requires
        old(tools).wf(),
    ensures
        final(tools).wf(),
        final(tools)@ == registered(old(tools)@, tool@),
        match name {
            Ok(name) => registration(old(tools)@, tool@) == Ok::<Seq<char>, ErrorView>(name@),
            Err(error) => registration(old(tools)@, tool@) == Err::<Seq<char>, ErrorView>(error@),
        },
{
    let flat: String = flat_text(&tool);
    if flat.as_str().is_empty() {
        return Err(invalid("empty tool name"));
    }
    let name: String = wire_name(&tool);
    if let Some(previous) = tools.insert(name.clone(), tool.clone()) {
        if previous != tool {
            return Err(invalid("flattened tool names collide"));
        }
    }
    Ok(name)
}

} // verus!
