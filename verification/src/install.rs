//! What a space needs before calendar clients can use it: properties, types and the
//! headers of types.
//!
//! Nothing is ever removed, renamed or detached. A property with the right key and the
//! wrong format is reported, never repaired: that is a migration of data which a person
//! decides on.
use vstd::prelude::*;

use crate::object::Format;
use crate::text;
use crate::text::Text;

verus! {

// ------------------------------------------------------------------- schema
/// The colour of an option.
#[derive(Debug, Clone, Copy, PartialEq, Eq, Structural)]
pub enum Color {
    Grey,
    Red,
    Orange,
    Lime,
}

/// How objects of a type are laid out.
#[derive(Debug, Clone, Copy, PartialEq, Eq, Structural)]
pub enum Layout {
    Action,
    Basic,
}

/// One property of the schema. The names of its options are values that are read, such
/// as lengths of time.
#[derive(Debug)]
pub struct PropertySpec {
    pub key: &'static str,
    pub name: &'static str,
    pub format: Format,
    pub options: Vec<(&'static str, Color)>,
}

/// The schema of one property.
pub struct SpecView {
    pub key: Text,
    pub name: Text,
    pub format: Format,
    pub options: Seq<(Text, Color)>,
}

pub open spec fn options_view(options: Seq<(&'static str, Color)>) -> Seq<(Text, Color)> {
    Seq::new(options.len(), |i: int| (options[i].0@, options[i].1))
}

impl View for PropertySpec {
    type V = SpecView;

    open spec fn view(&self) -> SpecView {
        SpecView {
            key: self.key@,
            name: self.name@,
            format: self.format,
            options: options_view(self.options@),
        }
    }
}

pub open spec fn plain_spec(key: Text, name: Text, format: Format) -> SpecView {
    SpecView { key, name, format, options: seq![] }
}

/// A property without options.
pub fn plain(key: &'static str, name: &'static str, format: Format) -> (r: PropertySpec)
    ensures
        r@ == plain_spec(key@, name@, format),
{
    let r = PropertySpec { key, name, format, options: Vec::new() };
    assert(r@.options == Seq::<(Text, Color)>::empty());
    r
}

pub open spec fn specs_view(specs: Seq<PropertySpec>) -> Seq<SpecView> {
    Seq::new(specs.len(), |i: int| specs[i]@)
}

/// Everything that is read or written.
pub open spec fn wanted_schema() -> Seq<SpecView> {
    seq![
        plain_spec("done"@, "Done"@, Format::Checkbox),
        plain_spec("due_date"@, "Due date"@, Format::Date),
        plain_spec("scheduled"@, "Scheduled"@, Format::Date),
        plain_spec("start_date"@, "Start date"@, Format::Date),
        plain_spec("end_date"@, "End date"@, Format::Date),
        plain_spec("address"@, "Address"@, Format::Text),
        SpecView {
            key: "priority"@,
            name: "Priority"@,
            format: Format::Select,
            options: seq![
                ("High"@, Color::Red),
                ("Medium"@, Color::Orange),
                ("Low"@, Color::Lime),
            ],
        },
        SpecView {
            key: "reminder_lead"@,
            name: "Remind"@,
            format: Format::MultiSelect,
            options: seq![
                ("15m"@, Color::Grey),
                ("30m"@, Color::Grey),
                ("1h"@, Color::Grey),
                ("2h"@, Color::Grey),
                ("3h"@, Color::Grey),
                ("12h"@, Color::Grey),
                ("1d"@, Color::Grey),
                ("2d"@, Color::Grey),
                ("1w"@, Color::Grey),
            ],
        },
        plain_spec("rrule"@, "Recurrence rule"@, Format::Text),
        plain_spec("series"@, "Series"@, Format::Objects),
        plain_spec("occurrence"@, "Occurrence"@, Format::Date),
        plain_spec("exdate"@, "Excluded dates"@, Format::Text),
        plain_spec("ical_uid"@, "Calendar UID"@, Format::Text),
        plain_spec("deadline"@, "Deadline"@, Format::Date),
    ]
}

/// Everything that is read or written. `done` and `due_date` come with every space and
/// are listed so that a space which lost one is noticed here. A generated task points
/// at its series and remembers the occurrence it stands for, so that moving its planned
/// date keeps its identity; `exdate` holds the occurrences removed from a recurring
/// event, one to a line.
pub fn schema() -> (r: Vec<PropertySpec>)
    ensures
        specs_view(r@) == wanted_schema(),
{
    let mut r: Vec<PropertySpec> = Vec::new();
    r.push(plain("done", "Done", Format::Checkbox));
    r.push(plain("due_date", "Due date", Format::Date));
    r.push(plain("scheduled", "Scheduled", Format::Date));
    r.push(plain("start_date", "Start date", Format::Date));
    r.push(plain("end_date", "End date", Format::Date));
    r.push(plain("address", "Address", Format::Text));
    r.push(
        PropertySpec {
            key: "priority",
            name: "Priority",
            format: Format::Select,
            options: vec![("High", Color::Red), ("Medium", Color::Orange), ("Low", Color::Lime)],
        },
    );
    assert(r@[6]@.options == wanted_schema()[6].options);
    r.push(
        PropertySpec {
            key: "reminder_lead",
            name: "Remind",
            format: Format::MultiSelect,
            options: vec![
                ("15m", Color::Grey),
                ("30m", Color::Grey),
                ("1h", Color::Grey),
                ("2h", Color::Grey),
                ("3h", Color::Grey),
                ("12h", Color::Grey),
                ("1d", Color::Grey),
                ("2d", Color::Grey),
                ("1w", Color::Grey),
            ],
        },
    );
    assert(r@[7]@.options == wanted_schema()[7].options);
    r.push(plain("rrule", "Recurrence rule", Format::Text));
    r.push(plain("series", "Series", Format::Objects));
    r.push(plain("occurrence", "Occurrence", Format::Date));
    r.push(plain("exdate", "Excluded dates", Format::Text));
    r.push(plain("ical_uid", "Calendar UID", Format::Text));
    r.push(plain("deadline", "Deadline", Format::Date));
    assert(specs_view(r@) =~= wanted_schema());
    r
}

/// A type of objects that are read and written.
#[derive(Debug)]
pub struct TypeSpec {
    pub key: &'static str,
    pub name: &'static str,
    pub plural_name: &'static str,
    pub layout: Layout,
    /// Listed on the type, so that its objects show them.
    pub properties: Vec<&'static str>,
    /// Shown in the header of the type's objects, after what it already shows.
    pub header: Vec<&'static str>,
}

pub struct TypeView {
    pub key: Text,
    pub name: Text,
    pub plural_name: Text,
    pub layout: Layout,
    pub properties: Seq<Text>,
    pub header: Seq<Text>,
}

/// What strings say.
pub open spec fn says(list: Seq<&str>) -> Seq<Text> {
    Seq::new(list.len(), |i: int| list[i]@)
}

impl View for TypeSpec {
    type V = TypeView;

    open spec fn view(&self) -> TypeView {
        TypeView {
            key: self.key@,
            name: self.name@,
            plural_name: self.plural_name@,
            layout: self.layout,
            properties: says(self.properties@),
            header: says(self.header@),
        }
    }
}

pub open spec fn types_view(types: Seq<TypeSpec>) -> Seq<TypeView> {
    Seq::new(types.len(), |i: int| types[i]@)
}

pub open spec fn wanted_types() -> Seq<TypeView> {
    seq![
        TypeView {
            key: "task"@,
            name: "Task"@,
            plural_name: "Tasks"@,
            layout: Layout::Action,
            properties: seq![
                "scheduled"@,
                "reminder_lead"@,
                "priority"@,
                "series"@,
                "occurrence"@,
            ],
            header: seq!["priority"@, "due_date"@, "scheduled"@, "reminder_lead"@],
        },
        TypeView {
            key: "event"@,
            name: "Event"@,
            plural_name: "Events"@,
            layout: Layout::Basic,
            properties: seq![
                "start_date"@,
                "end_date"@,
                "deadline"@,
                "address"@,
                "tag"@,
                "reminder_lead"@,
            ],
            header: seq!["start_date"@, "end_date"@, "deadline"@, "reminder_lead"@],
        },
        TypeView {
            key: "recurring_task"@,
            name: "Recurring task"@,
            plural_name: "Recurring tasks"@,
            layout: Layout::Basic,
            properties: seq![
                "rrule"@,
                "start_date"@,
                "priority"@,
                "tag"@,
                "reminder_lead"@,
            ],
            header: seq!["rrule"@, "start_date"@],
        },
        TypeView {
            key: "recurring_event"@,
            name: "Recurring event"@,
            plural_name: "Recurring events"@,
            layout: Layout::Basic,
            properties: seq![
                "rrule"@,
                "start_date"@,
                "end_date"@,
                "address"@,
                "tag"@,
                "reminder_lead"@,
                "deadline"@,
            ],
            header: seq!["reminder_lead"@, "start_date"@, "rrule"@],
        },
    ]
}

/// The types of objects that are read and written. Every space has tasks; the other
/// types are made where they are missing.
pub fn types() -> (r: Vec<TypeSpec>)
    ensures
        types_view(r@) == wanted_types(),
{
    let task = TypeSpec {
        key: "task",
        name: "Task",
        plural_name: "Tasks",
        layout: Layout::Action,
        properties: vec!["scheduled", "reminder_lead", "priority", "series", "occurrence"],
        header: vec!["priority", "due_date", "scheduled", "reminder_lead"],
    };
    assert(task@.properties == wanted_types()[0].properties);
    assert(task@.header == wanted_types()[0].header);
    let event = TypeSpec {
        key: "event",
        name: "Event",
        plural_name: "Events",
        layout: Layout::Basic,
        properties: vec!["start_date", "end_date", "deadline", "address", "tag", "reminder_lead"],
        header: vec!["start_date", "end_date", "deadline", "reminder_lead"],
    };
    assert(event@.properties == wanted_types()[1].properties);
    assert(event@.header == wanted_types()[1].header);
    let recurring_task = TypeSpec {
        key: "recurring_task",
        name: "Recurring task",
        plural_name: "Recurring tasks",
        layout: Layout::Basic,
        properties: vec!["rrule", "start_date", "priority", "tag", "reminder_lead"],
        header: vec!["rrule", "start_date"],
    };
    assert(recurring_task@.properties == wanted_types()[2].properties);
    assert(recurring_task@.header == wanted_types()[2].header);
    let recurring_event = TypeSpec {
        key: "recurring_event",
        name: "Recurring event",
        plural_name: "Recurring events",
        layout: Layout::Basic,
        properties: vec![
            "rrule",
            "start_date",
            "end_date",
            "address",
            "tag",
            "reminder_lead",
            "deadline",
        ],
        header: vec!["reminder_lead", "start_date", "rrule"],
    };
    assert(recurring_event@.properties == wanted_types()[3].properties);
    assert(recurring_event@.header == wanted_types()[3].header);
    let r = vec![task, event, recurring_task, recurring_event];
    assert(types_view(r@) =~= wanted_types());
    r
}

// --------------------------------------------------------------- properties
/// A property of a space.
#[derive(Debug)]
pub struct Existing {
    pub id: String,
    pub key: String,
    pub name: String,
    pub format: Format,
}

pub struct ExistingView {
    pub id: Text,
    pub key: Text,
    pub name: Text,
    pub format: Format,
}

impl View for Existing {
    type V = ExistingView;

    open spec fn view(&self) -> ExistingView {
        ExistingView { id: self.id@, key: self.key@, name: self.name@, format: self.format }
    }
}

pub open spec fn existing_view(list: Seq<Existing>) -> Seq<ExistingView> {
    Seq::new(list.len(), |i: int| list[i]@)
}

/// Whether a list of properties is that of a space which the account has loaded: every
/// space has `created_date`. Without it every property would be taken as missing, and
/// be made a second time.
pub fn space_is_loaded(existing: &Vec<Existing>) -> (r: bool)
    ensures
        r == exists|i: int| 0 <= i < existing@.len() && (#[trigger] existing@[i]).key@
            == "created_date"@,
{
    let mut i: usize = 0;
    while i < existing.len()
        invariant
            i <= existing@.len(),
            forall|j: int| 0 <= j < i ==> (#[trigger] existing@[j]).key@ != "created_date"@,
        decreases existing@.len() - i,
    {
        if text::same(existing[i].key.as_str(), "created_date") {
            return true;
        }
        i += 1;
    }
    false
}

/// The properties with a key.
pub open spec fn under_key(existing: Seq<ExistingView>, key: Text) -> Seq<ExistingView>
    decreases existing.len(),
{
    if existing.len() == 0 {
        seq![]
    } else if existing.last().key == key {
        under_key(existing.drop_last(), key).push(existing.last())
    } else {
        under_key(existing.drop_last(), key)
    }
}

/// A state that is not acted on.
#[derive(Debug, PartialEq)]
pub enum Problem {
    WrongFormat { key: &'static str, id: String, found: Format, expected: Format },
    DuplicateKey { key: &'static str, ids: Vec<String> },
}

pub enum ProblemView {
    WrongFormat { key: Text, id: Text, found: Format, expected: Format },
    DuplicateKey { key: Text, ids: Seq<Text> },
}

impl View for Problem {
    type V = ProblemView;

    open spec fn view(&self) -> ProblemView {
        match self {
            Problem::WrongFormat { key, id, found, expected } => ProblemView::WrongFormat {
                key: key@,
                id: id@,
                found: *found,
                expected: *expected,
            },
            Problem::DuplicateKey { key, ids } => ProblemView::DuplicateKey {
                key: key@,
                ids: text::texts(ids@),
            },
        }
    }
}

impl ProblemView {
    pub open spec fn words(self) -> Text {
        match self {
            ProblemView::WrongFormat { key, id, found, expected } => key + ": property "@ + id
                + " is "@ + found.written() + ", expected "@ + expected.written()
                + "; migrate its values and delete it first"@,
            ProblemView::DuplicateKey { key, ids } => key + ": "@ + text::decimal(ids.len())
                + " properties share this key ("@ + text::join(ids, ", "@)
                + "); delete all but one first"@,
        }
    }
}

impl Problem {
    /// The problem in words.
    pub fn message(&self) -> (r: String)
        ensures
            r@ == self@.words(),
    {
        match self {
            Problem::WrongFormat { key, id, found, expected } => {
                let mut m = text::glue(key, ": property ");
                m.append(id.as_str());
                m.append(" is ");
                m.append(found.text());
                m.append(", expected ");
                m.append(expected.text());
                m.append("; migrate its values and delete it first");
                m
            },
            Problem::DuplicateKey { key, ids } => {
                let mut m = text::glue(key, ": ");
                m.append(text::number(ids.len() as u64).as_str());
                m.append(" properties share this key (");
                m.append(text::join_all(ids, ", ").as_str());
                m.append("); delete all but one first");
                m
            },
        }
    }
}

pub open spec fn ids_of(list: Seq<ExistingView>) -> Seq<Text> {
    Seq::new(list.len(), |i: int| list[i].id)
}

/// What is wrong with the properties under one key: there are several, or the only one
/// has another format.
pub open spec fn problem_of(spec: SpecView, existing: Seq<ExistingView>) -> Option<ProblemView> {
    let found = under_key(existing, spec.key);
    if found.len() > 1 {
        Some(ProblemView::DuplicateKey { key: spec.key, ids: ids_of(found) })
    } else if found.len() == 1 && found[0].format != spec.format {
        Some(
            ProblemView::WrongFormat {
                key: spec.key,
                id: found[0].id,
                found: found[0].format,
                expected: spec.format,
            },
        )
    } else {
        None
    }
}

/// Everything that is wrong with the properties of a space.
pub open spec fn problems_of(schema: Seq<SpecView>, existing: Seq<ExistingView>) -> Seq<
    ProblemView,
>
    decreases schema.len(),
{
    if schema.len() == 0 {
        seq![]
    } else {
        let front = problems_of(schema.drop_last(), existing);
        match problem_of(schema.last(), existing) {
            Some(problem) => front.push(problem),
            None => front,
        }
    }
}

pub open spec fn problems_view(problems: Seq<Problem>) -> Seq<ProblemView> {
    Seq::new(problems.len(), |i: int| problems[i]@)
}

/// What is to be done for one property.
#[derive(Debug)]
pub enum Step<'a> {
    Present { spec: &'a PropertySpec, id: String },
    Create(&'a PropertySpec),
}

/// Whether a step is the one for a property of the schema: it is made where none has
/// its key, and left alone where one has.
pub open spec fn step_is(step: Step, spec: PropertySpec, existing: Seq<ExistingView>) -> bool {
    let found = under_key(existing, spec@.key);
    match step {
        Step::Present { spec: which, id } => *which == spec && found.len() == 1 && id@
            == found[0].id,
        Step::Create(which) => *which == spec && found.len() == 0,
    }
}

fn find_under<'b>(existing: &'b Vec<Existing>, key: &str) -> (r: Vec<&'b Existing>)
    ensures
        Seq::new(r@.len(), |i: int| r@[i]@) == under_key(existing_view(existing@), key@),
{
    let ghost all = existing_view(existing@);
    let mut r: Vec<&'b Existing> = Vec::new();
    assert(Seq::new(r@.len(), |i: int| r@[i]@) == Seq::<ExistingView>::empty());
    let mut i: usize = 0;
    while i < existing.len()
        invariant
            i <= existing@.len(),
            all == existing_view(existing@),
            Seq::new(r@.len(), |i: int| r@[i]@) == under_key(all.take(i as int), key@),
        decreases existing@.len() - i,
    {
        assert(all.take(i + 1).drop_last() == all.take(i as int));
        assert(all.take(i + 1).last() == existing@[i as int]@);
        let ghost before = r@;
        if text::same(existing[i].key.as_str(), key) {
            r.push(&existing[i]);
            assert(Seq::new(r@.len(), |i: int| r@[i]@) == Seq::new(
                before.len(),
                |i: int| before[i]@,
            ).push(existing@[i as int]@));
        }
        i += 1;
    }
    assert(all.take(existing@.len() as int) == all);
    r
}

fn collect_ids(found: &Vec<&Existing>) -> (r: Vec<String>)
    ensures
        text::texts(r@) == ids_of(Seq::new(found@.len(), |i: int| found@[i]@)),
{
    let mut r: Vec<String> = Vec::new();
    let mut i: usize = 0;
    while i < found.len()
        invariant
            i <= found@.len(),
            r@.len() == i,
            forall|j: int| 0 <= j < i ==> (#[trigger] r@[j])@ == found@[j].id@,
        decreases found@.len() - i,
    {
        r.push(found[i].id.clone());
        i += 1;
    }
    assert(text::texts(r@) =~= ids_of(Seq::new(found@.len(), |i: int| found@[i]@)));
    r
}

/// Holds a space's properties against the schema. All problems are collected rather
/// than the first alone, so that one run shows everything there is to repair.
pub fn plan<'a>(schema: &'a Vec<PropertySpec>, existing: &Vec<Existing>) -> (r: Result<
    Vec<Step<'a>>,
    Vec<Problem>,
>)
    ensures
        match r {
            Ok(steps) => {
                &&& problems_of(specs_view(schema@), existing_view(existing@)).len() == 0
                &&& steps@.len() == schema@.len()
                &&& forall|i: int|
                    0 <= i < schema@.len() ==> step_is(
                        #[trigger] steps@[i],
                        schema@[i],
                        existing_view(existing@),
                    )
            },
            Err(problems) => {
                &&& problems@.len() > 0
                &&& problems_view(problems@) == problems_of(
                    specs_view(schema@),
                    existing_view(existing@),
                )
            },
        },
{
    let ghost all = specs_view(schema@);
    let ghost space = existing_view(existing@);
    let mut steps: Vec<Step<'a>> = Vec::new();
    let mut problems: Vec<Problem> = Vec::new();
    assert(problems_view(problems@) == Seq::<ProblemView>::empty());
    let mut i: usize = 0;
    while i < schema.len()
        invariant
            i <= schema@.len(),
            all == specs_view(schema@),
            space == existing_view(existing@),
            problems_view(problems@) == problems_of(all.take(i as int), space),
            problems@.len() == 0 ==> steps@.len() == i,
            problems@.len() == 0 ==> forall|j: int|
                0 <= j < i ==> step_is(#[trigger] steps@[j], schema@[j], space),
        decreases schema@.len() - i,
    {
        assert(all.take(i + 1).drop_last() == all.take(i as int));
        assert(all.take(i + 1).last() == schema@[i as int]@);
        let spec = &schema[i];
        let found = find_under(existing, spec.key);
        let ghost seen = Seq::new(found@.len(), |k: int| found@[k]@);
        let ghost before = problems@;
        if found.len() == 0 {
            steps.push(Step::Create(spec));
        } else if found.len() > 1 {
            problems.push(Problem::DuplicateKey { key: spec.key, ids: collect_ids(&found) });
            assert(problems_view(problems@) == problems_view(before).push(problems@.last()@));
        } else {
            let one = found[0];
            assert(seen[0] == one@);
            if one.format == spec.format {
                steps.push(Step::Present { spec, id: one.id.clone() });
            } else {
                problems.push(
                    Problem::WrongFormat {
                        key: spec.key,
                        id: one.id.clone(),
                        found: one.format,
                        expected: spec.format,
                    },
                );
                assert(problems_view(problems@) == problems_view(before).push(problems@.last()@));
            }
        }
        i += 1;
    }
    assert(all.take(schema@.len() as int) == all);
    if problems.len() == 0 {
        Ok(steps)
    } else {
        Err(problems)
    }
}

/// Making a missing property settles it, and changes nothing for the others.
pub proof fn law_a_created_property_is_settled(
    existing: Seq<ExistingView>,
    spec: SpecView,
    created: ExistingView,
    other: SpecView,
)
    requires
        under_key(existing, spec.key).len() == 0,
        created.key == spec.key,
        created.format == spec.format,
        other.key != spec.key,
    ensures
        under_key(existing.push(created), spec.key) == seq![created],
        problem_of(spec, existing.push(created)) is None,
        under_key(existing.push(created), other.key) == under_key(existing, other.key),
        problem_of(other, existing.push(created)) == problem_of(other, existing),
{
    assert(existing.push(created).drop_last() == existing);
    assert(under_key(existing.push(created), spec.key) =~= seq![created]);
}

/// What is printed of a property.
pub open spec fn step_words(step: Step) -> Text {
    match step {
        Step::Present { spec, id } => "  ok      "@ + spec.key@ + " ("@ + spec.format.written()
            + ") "@ + id@,
        Step::Create(spec) => "  create  "@ + spec.key@ + " ("@ + spec.format.written() + ") \""@
            + spec.name@ + "\""@,
    }
}

impl<'a> Step<'a> {
    /// The line that is printed of the step.
    pub fn line(&self) -> (r: String)
        ensures
            r@ == step_words(*self),
    {
        match self {
            Step::Present { spec, id } => {
                let mut m = text::glue("  ok      ", spec.key);
                m.append(" (");
                m.append(spec.format.text());
                m.append(") ");
                m.append(id.as_str());
                m
            },
            Step::Create(spec) => {
                let mut m = text::glue("  create  ", spec.key);
                m.append(" (");
                m.append(spec.format.text());
                m.append(") \"");
                m.append(spec.name);
                m.append("\"");
                m
            },
        }
    }
}

/// An error that ends the preparation of a space.
#[derive(Debug)]
pub enum InstallError {
    Schema(Vec<Problem>),
    Anytype(String),
    NotLoaded(String),
    Type(String),
    Header { key: &'static str, message: String },
    KeyChanged { expected: &'static str, actual: String, id: String },
}

/// Each problem on a line of its own.
pub open spec fn problem_lines(problems: Seq<ProblemView>) -> Seq<Text> {
    Seq::new(problems.len(), |i: int| "  "@ + problems[i].words())
}

impl InstallError {
    pub open spec fn words(self) -> Text {
        match self {
            InstallError::Schema(problems) => "the space does not match the schema:\n"@
                + text::join(problem_lines(problems_view(problems@)), "\n"@),
            InstallError::Anytype(why) => "anytype: "@ + why@,
            InstallError::NotLoaded(space) => "space "@ + space@
                + " is not readable yet: the account is not a member, or has not loaded it; nothing was changed"@,
            InstallError::Type(why) => why@,
            InstallError::Header { key, message } => "setting the header of "@ + key@ + ": "@
                + message@,
            InstallError::KeyChanged { expected, actual, id } => expected@
                + ": anytype created the property with key "@ + actual@ + "; delete "@ + id@
                + " and investigate"@,
        }
    }

    /// The error in words.
    pub fn message(&self) -> (r: String)
        ensures
            r@ == self.words(),
    {
        match self {
            InstallError::Schema(problems) => {
                let mut lines: Vec<String> = Vec::new();
                let mut i: usize = 0;
                while i < problems.len()
                    invariant
                        i <= problems@.len(),
                        lines@.len() == i,
                        forall|j: int|
                            0 <= j < i ==> (#[trigger] lines@[j])@ == "  "@ + problems@[j]@.words(),
                    decreases problems@.len() - i,
                {
                    lines.push(text::glue("  ", problems[i].message().as_str()));
                    i += 1;
                }
                assert(text::texts(lines@) =~= problem_lines(problems_view(problems@)));
                text::glue(
                    "the space does not match the schema:\n",
                    text::join_all(&lines, "\n").as_str(),
                )
            },
            InstallError::Anytype(why) => text::glue("anytype: ", why.as_str()),
            InstallError::NotLoaded(space) => {
                let mut m = text::glue("space ", space.as_str());
                m.append(
                    " is not readable yet: the account is not a member, or has not loaded it; nothing was changed",
                );
                m
            },
            InstallError::Type(why) => why.clone(),
            InstallError::Header { key, message } => {
                let mut m = text::glue("setting the header of ", key);
                m.append(": ");
                m.append(message.as_str());
                m
            },
            InstallError::KeyChanged { expected, actual, id } => {
                let mut m = text::glue(expected, ": anytype created the property with key ");
                m.append(actual.as_str());
                m.append("; delete ");
                m.append(id.as_str());
                m.append(" and investigate");
                m
            },
        }
    }
}

/// Plans the properties of a space, which must have been loaded.
pub fn create_properties<'a>(
    schema: &'a Vec<PropertySpec>,
    existing: &Vec<Existing>,
    space_id: &str,
) -> (r: Result<Vec<Step<'a>>, InstallError>)
    ensures
        ({
            let space = existing_view(existing@);
            let loaded = exists|i: int|
                0 <= i < existing@.len() && (#[trigger] existing@[i]).key@ == "created_date"@;
            let problems = problems_of(specs_view(schema@), space);
            match r {
                Ok(steps) => loaded && problems.len() == 0 && steps@.len() == schema@.len()
                    && forall|i: int|
                    0 <= i < schema@.len() ==> step_is(#[trigger] steps@[i], schema@[i], space),
                Err(InstallError::NotLoaded(id)) => !loaded && id@ == space_id@,
                Err(InstallError::Schema(found)) => loaded && problems.len() > 0 && problems_view(
                    found@,
                ) == problems,
                Err(_) => false,
            }
        }),
{
    if !space_is_loaded(existing) {
        return Err(InstallError::NotLoaded(space_id.to_owned()));
    }
    match plan(schema, existing) {
        Ok(steps) => Ok(steps),
        Err(problems) => Err(InstallError::Schema(problems)),
    }
}

/// Whether a property was made with the key it was to have. A silently different key
/// would leave a property that nobody finds.
pub fn created_property(expected: &'static str, actual: &str, id: &str) -> (r: Result<
    (),
    InstallError,
>)
    ensures
        match r {
            Ok(()) => actual@ == expected@,
            Err(InstallError::KeyChanged { expected: wanted, actual: made, id: which }) => actual@
                != expected@ && wanted@ == expected@ && made@ == actual@ && which@ == id@,
            Err(_) => false,
        },
{
    if text::same(actual, expected) {
        Ok(())
    } else {
        Err(
            InstallError::KeyChanged { expected, actual: actual.to_owned(), id: id.to_owned() },
        )
    }
}

// -------------------------------------------------------------------- types
/// The texts of a list that are not in another, in their order.
pub open spec fn lacking(listed: Seq<Text>, wanted: Seq<Text>) -> Seq<Text>
    decreases wanted.len(),
{
    if wanted.len() == 0 {
        seq![]
    } else if listed.contains(wanted.last()) {
        lacking(listed, wanted.drop_last())
    } else {
        lacking(listed, wanted.drop_last()).push(wanted.last())
    }
}

proof fn lemma_lacking(listed: Seq<Text>, wanted: Seq<Text>)
    ensures
        forall|x: Text| #[trigger]
            lacking(listed, wanted).contains(x) <==> wanted.contains(x) && !listed.contains(x),
    decreases wanted.len(),
{
    if wanted.len() == 0 {
    } else {
        let front = wanted.drop_last();
        lemma_lacking(listed, front);
        assert(wanted == front.push(wanted.last()));
        assert forall|x: Text| #[trigger]
            lacking(listed, wanted).contains(x) <==> wanted.contains(x) && !listed.contains(
            x,
        ) by {
            lemma_push_contains(front, wanted.last(), x);
            lemma_push_contains(lacking(listed, front), wanted.last(), x);
        }
    }
}

proof fn lemma_push_contains(s: Seq<Text>, y: Text, x: Text)
    ensures
        s.push(y).contains(x) <==> s.contains(x) || x == y,
{
    if s.contains(x) {
        let i = choose|i: int| 0 <= i < s.len() && s[i] == x;
        assert(s.push(y)[i] == x);
    }
    if x == y {
        assert(s.push(y)[s.len() as int] == x);
    }
}

/// Nothing is lacking exactly where everything wanted is listed.
proof fn lemma_nothing_lacking(listed: Seq<Text>, wanted: Seq<Text>)
    ensures
        lacking(listed, wanted).len() == 0 <==> forall|x: Text| #[trigger]
            wanted.contains(x) ==> listed.contains(x),
{
    lemma_lacking(listed, wanted);
    if lacking(listed, wanted).len() > 0 {
        let x = lacking(listed, wanted)[0];
        assert(lacking(listed, wanted).contains(x));
        assert(wanted.contains(x));
    } else {
        assert forall|x: Text| #[trigger] wanted.contains(x) implies listed.contains(x) by {
            assert(!lacking(listed, wanted).contains(x));
        }
    }
}

fn says_it(list: &[&str], s: &str) -> (r: bool)
    ensures
        r == says(list@).contains(s@),
{
    let mut i: usize = 0;
    while i < list.len()
        invariant
            i <= list@.len(),
            forall|j: int| 0 <= j < i ==> says(list@)[j] != s@,
        decreases list@.len() - i,
    {
        assert(says(list@)[i as int] == list@[i as int]@);
        if text::same(list[i], s) {
            return true;
        }
        i += 1;
    }
    false
}

/// The keys of `wanted` that a type does not list yet, in their order.
pub fn missing_keys<'a>(listed: &[&str], wanted: &[&'a str]) -> (r: Vec<&'a str>)
    ensures
        says(r@) == lacking(says(listed@), says(wanted@)),
{
    let ghost all = says(wanted@);
    let mut r: Vec<&'a str> = Vec::new();
    assert(says(r@) == Seq::<Text>::empty());
    let mut i: usize = 0;
    while i < wanted.len()
        invariant
            i <= wanted@.len(),
            all == says(wanted@),
            says(r@) == lacking(says(listed@), all.take(i as int)),
        decreases wanted@.len() - i,
    {
        assert(all.take(i + 1).drop_last() == all.take(i as int));
        assert(all.take(i + 1).last() == wanted@[i as int]@);
        let ghost before = r@;
        if !says_it(listed, wanted[i]) {
            r.push(wanted[i]);
            assert(says(r@) == says(before).push(wanted@[i as int]@));
        }
        i += 1;
    }
    assert(all.take(wanted@.len() as int) == all);
    r
}

fn keep_lacking(listed: &[String], wanted: &[String]) -> (r: Vec<String>)
    ensures
        text::texts(r@) == lacking(text::texts(listed@), text::texts(wanted@)),
{
    let ghost all = text::texts(wanted@);
    let mut r: Vec<String> = Vec::new();
    assert(text::texts(r@) == Seq::<Text>::empty());
    let mut i: usize = 0;
    while i < wanted.len()
        invariant
            i <= wanted@.len(),
            all == text::texts(wanted@),
            text::texts(r@) == lacking(text::texts(listed@), all.take(i as int)),
        decreases wanted@.len() - i,
    {
        assert(all.take(i + 1).drop_last() == all.take(i as int));
        assert(all.take(i + 1).last() == wanted@[i as int]@);
        let ghost before = r@;
        let mut found = false;
        let mut j: usize = 0;
        while j < listed.len()
            invariant
                j <= listed@.len(),
                i < wanted@.len(),
                found == exists|k: int| 0 <= k < j && (#[trigger] listed@[k])@ == wanted@[i as int]@,
            decreases listed@.len() - j,
        {
            if text::same(listed[j].as_str(), wanted[i].as_str()) {
                found = true;
            }
            j += 1;
        }
        assert(found == text::texts(listed@).contains(wanted@[i as int]@)) by {
            if found {
                let k = choose|k: int|
                    0 <= k < listed@.len() && (#[trigger] listed@[k])@ == wanted@[i as int]@;
                assert(text::texts(listed@)[k] == wanted@[i as int]@);
            } else if text::texts(listed@).contains(wanted@[i as int]@) {
                let k = choose|k: int|
                    0 <= k < text::texts(listed@).len() && text::texts(listed@)[k]
                        == wanted@[i as int]@;
                assert(listed@[k]@ == wanted@[i as int]@);
            }
        }
        if !found {
            r.push(wanted[i].clone());
            assert(text::texts(r@) == text::texts(before).push(wanted@[i as int]@));
        }
        i += 1;
    }
    assert(all.take(wanted@.len() as int) == all);
    r
}

/// The header and the ordinary list of a type once what is wanted stands in the header:
/// appended to what it shows, and taken out of the ordinary list. Nothing where the
/// header shows it all.
pub open spec fn headed(featured: Seq<Text>, recommended: Seq<Text>, wanted: Seq<Text>) -> Option<
    (Seq<Text>, Seq<Text>),
> {
    let added = lacking(featured, wanted);
    if added.len() == 0 {
        None
    } else {
        Some((featured + added, lacking(added, recommended)))
    }
}

pub open spec fn lists_view(lists: Option<(Vec<String>, Vec<String>)>) -> Option<
    (Seq<Text>, Seq<Text>),
> {
    match lists {
        Some(lists) => Some((text::texts(lists.0@), text::texts(lists.1@))),
        None => None,
    }
}

/// The header and the ordinary list after adding `wanted` to the header, by the ids of
/// the properties. `None` where the header already shows them all, so that a repeated
/// run writes nothing.
pub fn header_change(featured: &[String], recommended: &[String], wanted: &[String]) -> (r: Option<
    (Vec<String>, Vec<String>),
>)
    ensures
        lists_view(r) == headed(
            text::texts(featured@),
            text::texts(recommended@),
            text::texts(wanted@),
        ),
{
    let added = keep_lacking(featured, wanted);
    assert(text::texts(added@).len() == added@.len());
    if added.len() == 0 {
        return None;
    }
    let mut new_featured: Vec<String> = Vec::new();
    let mut i: usize = 0;
    while i < featured.len()
        invariant
            i <= featured@.len(),
            new_featured@.len() == i,
            forall|j: int| 0 <= j < i ==> (#[trigger] new_featured@[j])@ == featured@[j]@,
        decreases featured@.len() - i,
    {
        new_featured.push(featured[i].clone());
        i += 1;
    }
    let mut i: usize = 0;
    while i < added.len()
        invariant
            i <= added@.len(),
            new_featured@.len() == featured@.len() + i,
            forall|j: int|
                0 <= j < featured@.len() ==> (#[trigger] new_featured@[j])@ == featured@[j]@,
            forall|j: int|
                featured@.len() <= j < featured@.len() + i ==> (#[trigger] new_featured@[j])@
                    == added@[j - featured@.len()]@,
        decreases added@.len() - i,
    {
        new_featured.push(added[i].clone());
        i += 1;
    }
    assert(text::texts(new_featured@) =~= text::texts(featured@) + text::texts(added@));
    let new_recommended = keep_lacking(added.as_slice(), recommended);
    Some((new_featured, new_recommended))
}

/// The two lists after a change, or as they are where there is nothing to change.
pub open spec fn changed(featured: Seq<Text>, recommended: Seq<Text>, wanted: Seq<Text>) -> (
    Seq<Text>,
    Seq<Text>,
) {
    match headed(featured, recommended, wanted) {
        Some(lists) => lists,
        None => (featured, recommended),
    }
}

/// Once a header was changed, changing it again for the same properties writes nothing.
pub proof fn law_a_header_is_changed_once(
    featured: Seq<Text>,
    recommended: Seq<Text>,
    wanted: Seq<Text>,
)
    ensures
        headed(
            changed(featured, recommended, wanted).0,
            changed(featured, recommended, wanted).1,
            wanted,
        ) is None,
{
    let added = lacking(featured, wanted);
    let shown = featured + added;
    lemma_lacking(featured, wanted);
    assert forall|x: Text| #[trigger] wanted.contains(x) implies shown.contains(x) by {
        if featured.contains(x) {
            let i = choose|i: int| 0 <= i < featured.len() && featured[i] == x;
            assert(shown[i] == x);
        } else {
            assert(added.contains(x));
            let i = choose|i: int| 0 <= i < added.len() && added[i] == x;
            assert(shown[featured.len() + i] == x);
        }
    }
    lemma_nothing_lacking(shown, wanted);
}

/// A changed header keeps what it showed at its front, nothing it gains stays in the
/// ordinary list, and the ordinary list loses nothing else.
pub proof fn law_a_changed_header_only_gains(
    featured: Seq<Text>,
    recommended: Seq<Text>,
    wanted: Seq<Text>,
    id: Text,
)
    requires
        headed(featured, recommended, wanted) is Some,
    ensures
        ({
            let (shown, rest) = headed(featured, recommended, wanted)->0;
            &&& shown.take(featured.len() as int) == featured
            &&& wanted.contains(id) && !featured.contains(id) ==> shown.contains(id)
                && !rest.contains(id)
            &&& recommended.contains(id) && !(wanted.contains(id) && !featured.contains(id))
                ==> rest.contains(id)
        }),
{
    let added = lacking(featured, wanted);
    let shown = featured + added;
    assert(shown.take(featured.len() as int) =~= featured);
    lemma_lacking(featured, wanted);
    lemma_lacking(added, recommended);
    assert(added.contains(id) <==> wanted.contains(id) && !featured.contains(id));
    if added.contains(id) {
        let i = choose|i: int| 0 <= i < added.len() && added[i] == id;
        assert(shown[featured.len() + i] == id);
    }
    assert(lacking(added, recommended).contains(id) <==> recommended.contains(id)
        && !added.contains(id));
}

/// A property as a type lists it.
#[derive(Debug)]
pub struct TypeProperty {
    pub format: Format,
    pub key: String,
    pub name: String,
}

pub struct TypePropertyView {
    pub format: Format,
    pub key: Text,
    pub name: Text,
}

impl View for TypeProperty {
    type V = TypePropertyView;

    open spec fn view(&self) -> TypePropertyView {
        TypePropertyView { format: self.format, key: self.key@, name: self.name@ }
    }
}

pub open spec fn listed_view(list: Seq<TypeProperty>) -> Seq<TypePropertyView> {
    Seq::new(list.len(), |i: int| list[i]@)
}

/// The property with a key, the last where there are several.
pub open spec fn with_key(properties: Seq<ExistingView>, key: Text) -> Option<ExistingView>
    decreases properties.len(),
{
    if properties.len() == 0 {
        None
    } else if properties.last().key == key {
        Some(properties.last())
    } else {
        with_key(properties.drop_last(), key)
    }
}

fn find_key<'b>(properties: &'b Vec<Existing>, key: &str) -> (r: Option<&'b Existing>)
    ensures
        match r {
            Some(property) => with_key(existing_view(properties@), key@) == Some(property@),
            None => with_key(existing_view(properties@), key@) is None,
        },
{
    let ghost all = existing_view(properties@);
    let mut i: usize = properties.len();
    assert(all.take(all.len() as int) == all);
    while i > 0
        invariant
            i <= properties@.len(),
            all == existing_view(properties@),
            with_key(all.take(i as int), key@) == with_key(all, key@),
        decreases i,
    {
        assert(all.take(i as int).drop_last() == all.take(i - 1));
        assert(all.take(i as int).last() == properties@[i - 1]@);
        if text::same(properties[i - 1].key.as_str(), key) {
            return Some(&properties[i - 1]);
        }
        i -= 1;
    }
    None
}

/// How a type lists a property of a key.
pub open spec fn listing(properties: Seq<ExistingView>, key: Text) -> Option<TypePropertyView> {
    match with_key(properties, key) {
        Some(property) => Some(
            TypePropertyView { format: property.format, key: property.key, name: property.name },
        ),
        None => None,
    }
}

/// How a type lists a property, which the space must have.
pub fn type_property(properties: &Vec<Existing>, key: &str) -> (r: Result<
    TypeProperty,
    InstallError,
>)
    ensures
        match r {
            Ok(property) => listing(existing_view(properties@), key@) == Some(property@),
            Err(InstallError::Type(why)) => listing(existing_view(properties@), key@) is None
                && why@ == "the space has no property "@ + key@,
            Err(_) => false,
        },
{
    match find_key(properties, key) {
        Some(property) => Ok(
            TypeProperty {
                format: property.format,
                key: property.key.clone(),
                name: property.name.clone(),
            },
        ),
        None => Err(InstallError::Type(text::glue("the space has no property ", key))),
    }
}

/// How a type lists properties of keys.
pub open spec fn listings(properties: Seq<ExistingView>, keys: Seq<Text>) -> Seq<
    TypePropertyView,
> {
    Seq::new(keys.len(), |i: int| listing(properties, keys[i])->0)
}

/// Whether a key is the first of some that the space has no property for.
pub open spec fn first_unknown(properties: Seq<ExistingView>, keys: Seq<Text>, key: Text) -> bool {
    exists|i: int|
        0 <= i < keys.len() && #[trigger] keys[i] == key && listing(properties, key) is None
            && forall|j: int| 0 <= j < i ==> listing(properties, #[trigger] keys[j]) is Some
}

/// Whether the space has a property for every key.
pub open spec fn all_known(properties: Seq<ExistingView>, keys: Seq<Text>) -> bool {
    forall|i: int| 0 <= i < keys.len() ==> listing(properties, #[trigger] keys[i]) is Some
}

/// How a type lists properties, which the space must have.
pub fn type_properties(properties: &Vec<Existing>, keys: &Vec<String>) -> (r: Result<
    Vec<TypeProperty>,
    InstallError,
>)
    ensures
        match r {
            Ok(list) => all_known(existing_view(properties@), text::texts(keys@)) && listed_view(
                list@,
            ) == listings(existing_view(properties@), text::texts(keys@)),
            Err(InstallError::Type(why)) => exists|key: Text|
                why@ == "the space has no property "@ + key && #[trigger] first_unknown(
                    existing_view(properties@),
                    text::texts(keys@),
                    key,
                ),
            Err(_) => false,
        },
{
    let ghost space = existing_view(properties@);
    let ghost all = text::texts(keys@);
    let mut r: Vec<TypeProperty> = Vec::new();
    let mut i: usize = 0;
    while i < keys.len()
        invariant
            i <= keys@.len(),
            space == existing_view(properties@),
            all == text::texts(keys@),
            r@.len() == i,
            forall|j: int| 0 <= j < i ==> listing(space, #[trigger] all[j]) is Some,
            forall|j: int| 0 <= j < i ==> (#[trigger] r@[j])@ == listing(space, all[j])->0,
        decreases keys@.len() - i,
    {
        assert(all[i as int] == keys@[i as int]@);
        match type_property(properties, keys[i].as_str()) {
            Ok(property) => r.push(property),
            Err(err) => {
                assert(first_unknown(space, all, all[i as int]));
                return Err(err);
            },
        }
        i += 1;
    }
    assert(listed_view(r@) =~= listings(space, all));
    Ok(r)
}

/// A type of a space, and the keys of the properties it lists.
#[derive(Debug)]
pub struct ListedType {
    pub id: String,
    pub keys: Vec<String>,
}

/// What is to be done for a type.
#[derive(Debug)]
pub enum TypePlan {
    /// It lists everything.
    Present,
    /// It is missing: the keys that it is to list.
    Create(Vec<String>),
    /// Some keys are missing: those, and everything it is to list. An update replaces
    /// the list of a type, so it carries what the type lists already.
    List { missing: Vec<String>, all: Vec<String> },
}

pub enum PlanView {
    Present,
    Create(Seq<Text>),
    List { missing: Seq<Text>, all: Seq<Text> },
}

impl View for TypePlan {
    type V = PlanView;

    open spec fn view(&self) -> PlanView {
        match self {
            TypePlan::Present => PlanView::Present,
            TypePlan::Create(keys) => PlanView::Create(text::texts(keys@)),
            TypePlan::List { missing, all } => PlanView::List {
                missing: text::texts(missing@),
                all: text::texts(all@),
            },
        }
    }
}

/// What is to be done for a type that lists these keys, or that is missing.
pub open spec fn type_plan(wanted: Seq<Text>, listed: Option<Seq<Text>>) -> PlanView {
    match listed {
        None => PlanView::Create(wanted),
        Some(listed) => {
            let missing = lacking(listed, wanted);
            if missing.len() == 0 {
                PlanView::Present
            } else {
                PlanView::List { missing, all: listed + missing }
            }
        },
    }
}

/// The keys that a type of the space lists, where there is one.
pub open spec fn keys_in(found: Option<&ListedType>) -> Option<Seq<Text>> {
    match found {
        Some(found) => Some(text::texts(found.keys@)),
        None => None,
    }
}

fn owned(list: &Vec<&'static str>) -> (r: Vec<String>)
    ensures
        text::texts(r@) == says(list@),
{
    let mut r: Vec<String> = Vec::new();
    let mut i: usize = 0;
    while i < list.len()
        invariant
            i <= list@.len(),
            r@.len() == i,
            forall|j: int| 0 <= j < i ==> (#[trigger] r@[j])@ == list@[j]@,
        decreases list@.len() - i,
    {
        r.push(list[i].to_owned());
        i += 1;
    }
    assert(text::texts(r@) =~= says(list@));
    r
}

/// Decides what is to be done for a type: a missing one is made, and one that is there
/// lists what it lacks.
pub fn prepare_type(spec: &TypeSpec, found: Option<&ListedType>) -> (r: TypePlan)
    ensures
        r@ == type_plan(spec@.properties, keys_in(found)),
{
    let wanted = owned(&spec.properties);
    match found {
        None => TypePlan::Create(wanted),
        Some(found) => {
            let missing = keep_lacking(found.keys.as_slice(), wanted.as_slice());
            assert(text::texts(missing@).len() == missing@.len());
            if missing.len() == 0 {
                TypePlan::Present
            } else {
                let mut all = text::copy_list(&found.keys);
                let mut i: usize = 0;
                while i < missing.len()
                    invariant
                        i <= missing@.len(),
                        all@ == found.keys@ + missing@.take(i as int),
                    decreases missing@.len() - i,
                {
                    all.push(missing[i].clone());
                    i += 1;
                    assert(all@ =~= found.keys@ + missing@.take(i as int));
                }
                assert(text::texts(all@) =~= text::texts(found.keys@) + text::texts(missing@));
                TypePlan::List { missing, all }
            }
        },
    }
}

/// Once a type was prepared, preparing it again does nothing.
pub proof fn law_a_type_is_prepared_once(wanted: Seq<Text>, listed: Option<Seq<Text>>)
    ensures
        match type_plan(wanted, listed) {
            PlanView::Present => listed is Some,
            PlanView::Create(all) => type_plan(wanted, Some(all)) == PlanView::Present,
            PlanView::List { all, .. } => type_plan(wanted, Some(all)) == PlanView::Present,
        },
{
    match listed {
        None => {
            lemma_nothing_lacking(wanted, wanted);
        },
        Some(listed) => {
            let missing = lacking(listed, wanted);
            let all = listed + missing;
            lemma_lacking(listed, wanted);
            assert forall|x: Text| #[trigger] wanted.contains(x) implies all.contains(x) by {
                if listed.contains(x) {
                    let i = choose|i: int| 0 <= i < listed.len() && listed[i] == x;
                    assert(all[i] == x);
                } else {
                    assert(missing.contains(x));
                    let i = choose|i: int| 0 <= i < missing.len() && missing[i] == x;
                    assert(all[listed.len() + i] == x);
                }
            }
            lemma_nothing_lacking(all, wanted);
        },
    }
}

/// What is printed of a type.
pub open spec fn type_words(spec: TypeView, id: Text, plan: PlanView) -> Text {
    match plan {
        PlanView::Present => "  ok      type "@ + spec.key + " "@ + id,
        PlanView::Create(_) => "  create  type "@ + spec.key + " \""@ + spec.name + "\""@,
        PlanView::List { missing, .. } => "  list    "@ + text::join(missing, ", "@)
            + " on type "@ + spec.key,
    }
}

/// The line that is printed of a type.
pub fn type_line(spec: &TypeSpec, id: &str, plan: &TypePlan) -> (r: String)
    ensures
        r@ == type_words(spec@, id@, plan@),
{
    match plan {
        TypePlan::Present => {
            let mut m = text::glue("  ok      type ", spec.key);
            m.append(" ");
            m.append(id);
            m
        },
        TypePlan::Create(_) => {
            let mut m = text::glue("  create  type ", spec.key);
            m.append(" \"");
            m.append(spec.name);
            m.append("\"");
            m
        },
        TypePlan::List { missing, .. } => {
            let mut m = text::glue("  list    ", text::join_all(missing, ", ").as_str());
            m.append(" on type ");
            m.append(spec.key);
            m
        },
    }
}

/// Whether a type was made with the key it was to have.
pub fn created_type(expected: &'static str, actual: &str, id: &str) -> (r: Result<(), InstallError>)
    ensures
        match r {
            Ok(()) => actual@ == expected@,
            Err(InstallError::Type(why)) => actual@ != expected@ && why@ == expected@
                + ": anytype created the type with key "@ + actual@ + "; delete "@ + id@
                + " and investigate"@,
            Err(_) => false,
        },
{
    if text::same(actual, expected) {
        return Ok(());
    }
    let mut m = text::glue(expected, ": anytype created the type with key ");
    m.append(actual);
    m.append("; delete ");
    m.append(id);
    m.append(" and investigate");
    Err(InstallError::Type(m))
}

// ------------------------------------------------------------------ headers
/// What a type shows in its header, and what beside it, by the ids of properties.
#[derive(Debug)]
pub struct TypeHeader {
    pub featured: Vec<String>,
    pub recommended: Vec<String>,
}

/// What is to be done for the header of a type.
#[derive(Debug)]
pub enum HeaderStep {
    /// The type is still to be made: the keys its header is to show.
    Later(Vec<String>),
    /// The header shows everything.
    Complete,
    /// The keys that are added, and the two lists by ids.
    Change { added: Vec<String>, featured: Vec<String>, recommended: Vec<String> },
}

pub enum HeaderView {
    Later(Seq<Text>),
    Complete,
    Change { added: Seq<Text>, featured: Seq<Text>, recommended: Seq<Text> },
}

impl View for HeaderStep {
    type V = HeaderView;

    open spec fn view(&self) -> HeaderView {
        match self {
            HeaderStep::Later(keys) => HeaderView::Later(text::texts(keys@)),
            HeaderStep::Complete => HeaderView::Complete,
            HeaderStep::Change { added, featured, recommended } => HeaderView::Change {
                added: text::texts(added@),
                featured: text::texts(featured@),
                recommended: text::texts(recommended@),
            },
        }
    }
}

/// The id of a property, for which its key stands in where it does not exist yet.
pub open spec fn id_for(properties: Seq<ExistingView>, key: Text) -> Text {
    match with_key(properties, key) {
        Some(property) => property.id,
        None => key,
    }
}

pub open spec fn ids_for(properties: Seq<ExistingView>, keys: Seq<Text>) -> Seq<Text> {
    Seq::new(keys.len(), |i: int| id_for(properties, keys[i]))
}

/// The keys whose properties a header does not show.
pub open spec fn unshown(properties: Seq<ExistingView>, featured: Seq<Text>, keys: Seq<Text>) -> Seq<
    Text,
>
    decreases keys.len(),
{
    if keys.len() == 0 {
        seq![]
    } else if featured.contains(id_for(properties, keys.last())) {
        unshown(properties, featured, keys.drop_last())
    } else {
        unshown(properties, featured, keys.drop_last()).push(keys.last())
    }
}

/// What is to be done for the header of a type.
pub open spec fn header_step_of(
    wanted: Seq<Text>,
    found: Option<(Seq<Text>, Seq<Text>)>,
    properties: Seq<ExistingView>,
) -> HeaderView {
    match found {
        None => HeaderView::Later(wanted),
        Some((featured, recommended)) => match headed(
            featured,
            recommended,
            ids_for(properties, wanted),
        ) {
            None => HeaderView::Complete,
            Some((shown, rest)) => HeaderView::Change {
                added: unshown(properties, featured, wanted),
                featured: shown,
                recommended: rest,
            },
        },
    }
}

pub open spec fn header_in(found: Option<&TypeHeader>) -> Option<(Seq<Text>, Seq<Text>)> {
    match found {
        Some(found) => Some((text::texts(found.featured@), text::texts(found.recommended@))),
        None => None,
    }
}

/// Decides what is to be done for the header of a type: what is missing is added after
/// what it shows, and nothing is taken out of it.
pub fn header_step(
    spec: &TypeSpec,
    found: Option<&TypeHeader>,
    properties: &Vec<Existing>,
) -> (r: HeaderStep)
    ensures
        r@ == header_step_of(spec@.header, header_in(found), existing_view(properties@)),
{
    let found = match found {
        None => return HeaderStep::Later(owned(&spec.header)),
        Some(found) => found,
    };
    let ghost space = existing_view(properties@);
    let ghost all = says(spec.header@);
    let mut wanted: Vec<String> = Vec::new();
    let mut added: Vec<String> = Vec::new();
    assert(text::texts(added@) == Seq::<Text>::empty());
    let mut i: usize = 0;
    while i < spec.header.len()
        invariant
            i <= spec.header@.len(),
            space == existing_view(properties@),
            all == says(spec.header@),
            wanted@.len() == i,
            forall|j: int| 0 <= j < i ==> (#[trigger] wanted@[j])@ == id_for(space, all[j]),
            text::texts(added@) == unshown(space, text::texts(found.featured@), all.take(i as int)),
        decreases spec.header@.len() - i,
    {
        assert(all.take(i + 1).drop_last() == all.take(i as int));
        assert(all.take(i + 1).last() == spec.header@[i as int]@);
        let key = spec.header[i];
        let id = match find_key(properties, key) {
            Some(property) => property.id.clone(),
            None => key.to_owned(),
        };
        let ghost before = added@;
        if !text::listed(&found.featured, id.as_str()) {
            added.push(key.to_owned());
            assert(text::texts(added@) == text::texts(before).push(key@));
        }
        wanted.push(id);
        i += 1;
    }
    assert(all.take(spec.header@.len() as int) == all);
    assert(text::texts(wanted@) =~= ids_for(space, all));
    match header_change(
        found.featured.as_slice(),
        found.recommended.as_slice(),
        wanted.as_slice(),
    ) {
        None => HeaderStep::Complete,
        Some((featured, recommended)) => HeaderStep::Change { added, featured, recommended },
    }
}

/// What is printed of a header.
pub open spec fn header_words(key: Text, step: HeaderView) -> Text {
    match step {
        HeaderView::Complete => "  ok      header "@ + key,
        HeaderView::Later(keys) => "  header  "@ + key + ": "@ + text::join(keys, ", "@),
        HeaderView::Change { added, .. } => "  header  "@ + key + ": "@ + text::join(added, ", "@),
    }
}

/// The line that is printed of a header.
pub fn header_line(key: &str, step: &HeaderStep) -> (r: String)
    ensures
        r@ == header_words(key@, step@),
{
    match step {
        HeaderStep::Complete => text::glue("  ok      header ", key),
        HeaderStep::Later(keys) => {
            let mut m = text::glue("  header  ", key);
            m.append(": ");
            m.append(text::join_all(keys, ", ").as_str());
            m
        },
        HeaderStep::Change { added, .. } => {
            let mut m = text::glue("  header  ", key);
            m.append(": ");
            m.append(text::join_all(added, ", ").as_str());
            m
        },
    }
}

/// How often a header is read again after a failure: right after a type was made, or its
/// list changed, the read can fail for some seconds.
pub const TRIES: u32 = 6;

/// Whether to read a header again after so many failed tries, and how many there are
/// then.
pub fn try_again(tries: u32) -> (r: Option<u32>)
    ensures
        r == (if tries < TRIES {
            Some((tries + 1) as u32)
        } else {
            None
        }),
{
    if tries < TRIES {
        Some(tries + 1)
    } else {
        None
    }
}

/// The last line of a run.
pub fn closing(changes: bool, apply: bool) -> (r: Option<&'static str>)
    ensures
        match r {
            Some(line) => (!changes && line@ == "nothing to change"@) || (changes && !apply
                && line@
                == "dry run: nothing was changed; re-run with --apply to make the changes above"@),
            None => changes && apply,
        },
{
    if !changes {
        Some("nothing to change")
    } else if !apply {
        Some("dry run: nothing was changed; re-run with --apply to make the changes above")
    } else {
        None
    }
}

// -------------------------------------------------------------------- what a plan comes to
proof fn lemma_under_key(existing: Seq<ExistingView>, key: Text)
    ensures
        forall|x: ExistingView| #[trigger]
            under_key(existing, key).contains(x) <==> existing.contains(x) && x.key == key,
        under_key(existing, key).len() > 1 <==> exists|i: int, j: int|
            0 <= i < j < existing.len() && (#[trigger] existing[i]).key == key && (
            #[trigger] existing[j]).key == key,
        under_key(existing, key).len() >= 1 <==> exists|i: int|
            0 <= i < existing.len() && (#[trigger] existing[i]).key == key,
    decreases existing.len(),
{
    if existing.len() > 0 {
        let front = existing.drop_last();
        let last = existing.len() - 1;
        let before = under_key(front, key);
        let r = under_key(existing, key);
        lemma_under_key(front, key);
        assert(existing[last] == existing.last());
        assert forall|x: ExistingView| #[trigger] r.contains(x) <==> existing.contains(x) && x.key
            == key by {
            assert(before.contains(x) <==> front.contains(x) && x.key == key);
            if r.contains(x) {
                let m = choose|m: int| 0 <= m < r.len() && r[m] == x;
                if m < before.len() {
                    assert(before[m] == x);
                    let n = choose|n: int| 0 <= n < front.len() && front[n] == x;
                    assert(existing[n] == x);
                }
            }
            if existing.contains(x) && x.key == key {
                let n = choose|n: int| 0 <= n < existing.len() && existing[n] == x;
                if n < last {
                    assert(front[n] == x);
                    let m = choose|m: int| 0 <= m < before.len() && before[m] == x;
                    assert(r[m] == x);
                } else {
                    assert(r[r.len() - 1] == x);
                }
            }
        }
        if exists|i: int, j: int|
            0 <= i < j < front.len() && (#[trigger] front[i]).key == key && (
            #[trigger] front[j]).key == key {
            let (i, j) = choose|i: int, j: int|
                0 <= i < j < front.len() && (#[trigger] front[i]).key == key && (
                #[trigger] front[j]).key == key;
            assert(existing[i].key == key && existing[j].key == key);
        }
        if exists|i: int| 0 <= i < front.len() && (#[trigger] front[i]).key == key {
            let i = choose|i: int| 0 <= i < front.len() && (#[trigger] front[i]).key == key;
            assert(existing[i].key == key);
        }
        if exists|i: int, j: int|
            0 <= i < j < existing.len() && (#[trigger] existing[i]).key == key && (
            #[trigger] existing[j]).key == key {
            let (i, j) = choose|i: int, j: int|
                0 <= i < j < existing.len() && (#[trigger] existing[i]).key == key && (
                #[trigger] existing[j]).key == key;
            assert(front[i].key == key);
            if j < last {
                assert(front[j].key == key);
            }
        }
        if exists|i: int| 0 <= i < existing.len() && (#[trigger] existing[i]).key == key {
            let i = choose|i: int| 0 <= i < existing.len() && (#[trigger] existing[i]).key == key;
            if i < last {
                assert(front[i].key == key);
            }
        }
    }
}

/// Whether the properties of a space leave one of the schema in doubt: two have its key, or
/// one that has it holds another kind of value.
pub open spec fn in_doubt(spec: SpecView, existing: Seq<ExistingView>) -> bool {
    ||| exists|i: int, j: int|
        0 <= i < j < existing.len() && (#[trigger] existing[i]).key == spec.key && (
        #[trigger] existing[j]).key == spec.key
    ||| exists|i: int|
        0 <= i < existing.len() && (#[trigger] existing[i]).key == spec.key && existing[i].format
            != spec.format
}

/// A space is prepared only where nothing is in doubt: there is a problem exactly where some
/// property of the schema is, and it names that property.
pub proof fn law_what_is_in_doubt_is_a_problem(schema: Seq<SpecView>, existing: Seq<ExistingView>)
    ensures
        problems_of(schema, existing).len() > 0 <==> exists|k: int|
            0 <= k < schema.len() && in_doubt(#[trigger] schema[k], existing),
        forall|k: int|
            0 <= k < schema.len() ==> (problem_of(#[trigger] schema[k], existing) is Some
                <==> in_doubt(schema[k], existing)),
    decreases schema.len(),
{
    assert forall|k: int| 0 <= k < schema.len() implies (problem_of(
        #[trigger] schema[k],
        existing,
    ) is Some <==> in_doubt(schema[k], existing)) by {
        let spec = schema[k];
        let found = under_key(existing, spec.key);
        lemma_under_key(existing, spec.key);
        if found.len() == 1 {
            assert(found.contains(found[0]));
            let n = choose|n: int| 0 <= n < existing.len() && existing[n] == found[0];
            if found[0].format != spec.format {
                assert(existing[n].key == spec.key && existing[n].format != spec.format);
            }
        }
        if exists|i: int|
            0 <= i < existing.len() && (#[trigger] existing[i]).key == spec.key
                && existing[i].format != spec.format {
            let i = choose|i: int|
                0 <= i < existing.len() && (#[trigger] existing[i]).key == spec.key
                    && existing[i].format != spec.format;
            assert(existing.contains(existing[i]));
            assert(found.contains(existing[i]));
            let m = choose|m: int| 0 <= m < found.len() && found[m] == existing[i];
            if found.len() == 1 {
                assert(m == 0);
            }
        }
    }
    if schema.len() > 0 {
        let front = schema.drop_last();
        law_what_is_in_doubt_is_a_problem(front, existing);
        assert(schema[schema.len() - 1] == schema.last());
        if exists|k: int| 0 <= k < front.len() && in_doubt(#[trigger] front[k], existing) {
            let k = choose|k: int| 0 <= k < front.len() && in_doubt(#[trigger] front[k], existing);
            assert(schema[k] == front[k]);
        }
        if exists|k: int| 0 <= k < schema.len() && in_doubt(#[trigger] schema[k], existing) {
            let k = choose|k: int|
                0 <= k < schema.len() && in_doubt(#[trigger] schema[k], existing);
            if k < front.len() {
                assert(front[k] == schema[k]);
            }
        }
    }
}

/// Once a plan was carried out, a type lists all that is wanted of it, behind all that it
/// listed before. What is there is not asked for again, and where nothing is missing there
/// is nothing to do.
pub proof fn law_a_planned_type_lists_what_is_wanted(
    wanted: Seq<Text>,
    listed: Option<Seq<Text>>,
    key: Text,
)
    requires
        wanted.contains(key),
    ensures
        match type_plan(wanted, listed) {
            PlanView::Present => listed matches Some(listed) && listed.contains(key),
            PlanView::Create(keys) => listed is None && keys.contains(key),
            PlanView::List { missing, all } => listed matches Some(listed) && all.contains(key)
                && listed.is_prefix_of(all) && (missing.contains(key) <==> !listed.contains(
                key,
            )),
        },
        listed is Some && !listed->0.contains(key) ==> type_plan(wanted, listed) is List,
{
    if let Some(listed) = listed {
        let missing = lacking(listed, wanted);
        lemma_lacking(listed, wanted);
        assert(missing.contains(key) <==> wanted.contains(key) && !listed.contains(key));
        let all = listed + missing;
        assert(all.subrange(0, listed.len() as int) == listed);
        if listed.contains(key) {
            let i = choose|i: int| 0 <= i < listed.len() && listed[i] == key;
            assert(all[i] == key);
        } else {
            let i = choose|i: int| 0 <= i < missing.len() && missing[i] == key;
            assert(all[listed.len() + i] == key);
        }
    }
}

/// A header that is changed shows every property that is wanted there, by its id, and
/// tells of those that it did not show.
pub proof fn law_a_header_shows_what_is_wanted(
    wanted: Seq<Text>,
    featured: Seq<Text>,
    recommended: Seq<Text>,
    properties: Seq<ExistingView>,
    i: int,
)
    requires
        0 <= i < wanted.len(),
    ensures
        match header_step_of(wanted, Some((featured, recommended)), properties) {
            HeaderView::Later(_) => false,
            HeaderView::Complete => featured.contains(id_for(properties, wanted[i])),
            HeaderView::Change { added, featured: shown, recommended: rest } => {
                &&& shown.contains(id_for(properties, wanted[i]))
                &&& featured.is_prefix_of(shown)
                &&& !featured.contains(id_for(properties, wanted[i])) ==> added.contains(wanted[i])
                    && !rest.contains(id_for(properties, wanted[i]))
            },
        },
        header_step_of(wanted, None, properties) == HeaderView::Later(wanted),
{
    let ids = ids_for(properties, wanted);
    let id = id_for(properties, wanted[i]);
    let added = lacking(featured, ids);
    let shown = featured + added;
    lemma_lacking(featured, ids);
    lemma_lacking(added, recommended);
    assert(ids[i] == id);
    assert(ids.contains(id));
    assert(added.contains(id) <==> ids.contains(id) && !featured.contains(id));
    assert(lacking(added, recommended).contains(id) <==> recommended.contains(id)
        && !added.contains(id));
    assert(shown.subrange(0, featured.len() as int) == featured);
    if featured.contains(id) {
        let n = choose|n: int| 0 <= n < featured.len() && featured[n] == id;
        assert(shown[n] == id);
    } else {
        let n = choose|n: int| 0 <= n < added.len() && added[n] == id;
        assert(shown[featured.len() + n] == id);
        lemma_unshown(properties, featured, wanted, i);
    }
}

proof fn lemma_unshown(
    properties: Seq<ExistingView>,
    featured: Seq<Text>,
    keys: Seq<Text>,
    i: int,
)
    requires
        0 <= i < keys.len(),
        !featured.contains(id_for(properties, keys[i])),
    ensures
        unshown(properties, featured, keys).contains(keys[i]),
    decreases keys.len(),
{
    let front = keys.drop_last();
    let before = unshown(properties, featured, front);
    let r = unshown(properties, featured, keys);
    if i < front.len() {
        lemma_unshown(properties, featured, front, i);
        let m = choose|m: int| 0 <= m < before.len() && before[m] == front[i];
        assert(r[m] == keys[i]);
    } else {
        assert(r[r.len() - 1] == keys[i]);
    }
}

} // verus!
