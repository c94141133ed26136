//! Tasks between the space's objects and the calendar.
use vstd::prelude::*;

use crate::accounts;
use crate::config::{AnytypeConfig, PropertiesConfig, PropertySelector, SelectorView};
use crate::event_source;
use crate::events;
use crate::install;
use crate::install::{Existing, ExistingView};
use crate::model;
use crate::model::{AnytypeDate, DateView, Task, TaskBatch};
use crate::object;
use crate::object::{Object, Property, PropertyValue, Setting, SettingView};
use crate::source::SourceError;
use crate::table;
use crate::table::Table;
use crate::text;
use crate::text::Text;
use crate::time;
use crate::time::Span;
use crate::writeback;
use crate::writeback::{Patch, PatchView};

verus! {

// -------------------------------------------------------------------- space
pub open spec fn spaces_view(spaces: Seq<(String, String)>) -> Seq<(Text, Text)> {
    Seq::new(spaces.len(), |i: int| (spaces[i].0@, spaces[i].1@))
}

/// Each space by its name and its id.
pub open spec fn space_names(spaces: Seq<(Text, Text)>) -> Seq<Text> {
    Seq::new(spaces.len(), |i: int| spaces[i].1 + " ("@ + spaces[i].0 + ")"@)
}

/// What is said where the space to serve cannot be told.
pub open spec fn no_only_space(spaces: Seq<(Text, Text)>) -> Text {
    if spaces.len() == 0 {
        "anytype.space_id is not set and the account is a member of no space: let it into the space to serve, or set the id"@
    } else {
        "anytype.space_id is not set and the account is a member of "@ + text::decimal(
            spaces.len(),
        ) + " spaces; set it to one of: "@ + text::join(space_names(spaces), ", "@)
    }
}

/// The only space there is. None or several is an error that says what to do and lists
/// the spaces there are.
pub fn pick_only_space(spaces: Vec<(String, String)>) -> (r: Result<(String, String), String>)
    ensures
        match r {
            Ok(space) => spaces@ == seq![space],
            Err(why) => spaces@.len() != 1 && why@ == no_only_space(spaces_view(spaces@)),
        },
{
    let count = spaces.len();
    if count == 1 {
        let space = (spaces[0].0.clone(), spaces[0].1.clone());
        assert(spaces@ =~= seq![space]);
        return Ok(space);
    }
    if count == 0 {
        return Err(
            "anytype.space_id is not set and the account is a member of no space: let it into the space to serve, or set the id".to_owned(),
        );
    }
    let mut names: Vec<String> = Vec::new();
    let mut i: usize = 0;
    while i < spaces.len()
        invariant
            i <= spaces@.len(),
            names@.len() == i,
            forall|j: int|
                0 <= j < i ==> (#[trigger] names@[j])@ == spaces@[j].1@ + " ("@ + spaces@[j].0@
                    + ")"@,
        decreases spaces@.len() - i,
    {
        let mut name = text::glue(spaces[i].1.as_str(), " (");
        name.append(spaces[i].0.as_str());
        name.append(")");
        names.push(name);
        i += 1;
    }
    assert(text::texts(names@) =~= space_names(spaces_view(spaces@)));
    let mut why = text::glue(
        "anytype.space_id is not set and the account is a member of ",
        text::number(count as u64).as_str(),
    );
    why.append(" spaces; set it to one of: ");
    why.append(text::join_all(&names, ", ").as_str());
    Err(why)
}

// --------------------------------------------------------------- properties
/// The first property with an id.
pub open spec fn first_with_id(properties: Seq<Property>, id: Text) -> Option<Property>
    decreases properties.len(),
{
    if properties.len() == 0 {
        None
    } else if properties[0].id@ == id {
        Some(properties[0])
    } else {
        first_with_id(properties.drop_first(), id)
    }
}

/// The properties with a key.
pub open spec fn keyed(properties: Seq<Property>, key: Text) -> Seq<Property>
    decreases properties.len(),
{
    if properties.len() == 0 {
        seq![]
    } else if properties.last().key@ == key {
        keyed(properties.drop_last(), key).push(properties.last())
    } else {
        keyed(properties.drop_last(), key)
    }
}

/// The property that a selector names.
pub open spec fn chosen(properties: Seq<Property>, selector: SelectorView) -> Option<Property> {
    match selector {
        SelectorView::Id(id) => first_with_id(properties, id),
        SelectorView::Key(key) => if keyed(properties, key).len() > 0 {
            Some(keyed(properties, key)[0])
        } else {
            None
        },
    }
}

/// What is said of a key that two properties share. Taking the first would put two
/// different values into one place of the calendar and look entirely normal.
pub open spec fn ambiguity(properties: Seq<Property>, selector: SelectorView, field: Text) -> Option<
    Text,
> {
    match selector {
        SelectorView::Id(_) => None,
        SelectorView::Key(key) => {
            let found = keyed(properties, key);
            if found.len() > 1 {
                Some(
                    "properties."@ + field + " = \"key:"@ + key
                        + "\" is ambiguous: it matches id:"@ + found[0].id@ + " (name "@
                        + text::quoted(found[0].name@) + ") and id:"@ + found[1].id@
                        + " (name "@ + text::quoted(found[1].name@)
                        + "); select one by id instead"@,
                )
            } else {
                None
            }
        },
    }
}

/// Finds the property that a selector names. Ids are unique; a key need not be, and one
/// that two properties share is an error.
pub fn resolve_property<'a>(
    properties: &'a Vec<Property>,
    selector: &PropertySelector,
    field: &str,
) -> (r: Result<Option<&'a Property>, SourceError>)
    ensures
        match r {
            Ok(found) => ambiguity(properties@, selector@, field@) is None && match found {
                Some(property) => chosen(properties@, selector@) == Some(*property),
                None => chosen(properties@, selector@) is None,
            },
            Err(SourceError::Schema(why)) => ambiguity(properties@, selector@, field@) == Some(
                why@,
            ),
            Err(_) => false,
        },
{
    match selector {
        PropertySelector::Id(id) => {
            let ghost all = properties@;
            let mut i: usize = 0;
            assert(all.skip(0) == all);
            while i < properties.len()
                invariant
                    i <= all.len(),
                    all == properties@,
                    selector@ == SelectorView::Id(id@),
                    first_with_id(all, id@) == first_with_id(all.skip(i as int), id@),
                decreases all.len() - i,
            {
                assert(all.skip(i as int).drop_first() == all.skip(i + 1));
                if text::same(properties[i].id.as_str(), id.as_str()) {
                    return Ok(Some(&properties[i]));
                }
                i += 1;
            }
            Ok(None)
        },
        PropertySelector::Key(key) => {
            let mut found: Vec<&'a Property> = Vec::new();
            let ghost all = properties@;
            let mut i: usize = 0;
            while i < properties.len()
                invariant
                    i <= all.len(),
                    all == properties@,
                    found@.len() == keyed(all.take(i as int), key@).len(),
                    forall|j: int|
                        0 <= j < found@.len() ==> *(#[trigger] found@[j]) == keyed(
                            all.take(i as int),
                            key@,
                        )[j],
                decreases all.len() - i,
            {
                assert(all.take(i + 1).drop_last() == all.take(i as int));
                assert(all.take(i + 1).last() == all[i as int]);
                if text::same(properties[i].key.as_str(), key.as_str()) {
                    found.push(&properties[i]);
                }
                i += 1;
            }
            assert(all.take(all.len() as int) == all);
            if found.len() > 1 {
                let mut why = text::glue("properties.", field);
                why.append(" = \"key:");
                why.append(key.as_str());
                why.append("\" is ambiguous: it matches id:");
                why.append(found[0].id.as_str());
                why.append(" (name ");
                why.append(text::quote(found[0].name.as_str()).as_str());
                why.append(") and id:");
                why.append(found[1].id.as_str());
                why.append(" (name ");
                why.append(text::quote(found[1].name.as_str()).as_str());
                why.append("); select one by id instead");
                return Err(SourceError::Schema(why));
            }
            if found.len() == 1 {
                Ok(Some(found[0]))
            } else {
                Ok(None)
            }
        },
    }
}

// -------------------------------------------------------------------- tasks
/// The date that a property holds.
pub open spec fn date_held(property: Option<Property>) -> Option<DateView> {
    match property {
        Some(property) => match property.value {
            PropertyValue::Date { date } => model::date_of(date@),
            _ => None,
        },
        None => None,
    }
}

/// What is said of a property that holds no date, or one that cannot be read.
pub open spec fn date_warnings(object_id: Text, property: Option<Property>, field: Text) -> Seq<
    Text,
> {
    match property {
        Some(property) => match property.value {
            PropertyValue::Date { date } => if model::date_of(date@) is Some {
                seq![]
            } else {
                seq![
                    "object "@ + object_id + " has an unparseable "@ + field + " date "@
                        + text::quoted(date@) + "; treated as absent"@,
                ]
            },
            other => seq![
                "object "@ + object_id + " has "@ + field + " of format "@ + other.kind().named()
                    + ", expected a date; treated as absent"@,
            ],
        },
        None => seq![],
    }
}

fn warn(warnings: &mut Vec<String>, warning: String)
    ensures
        text::texts(final(warnings)@) == text::texts(old(warnings)@) + seq![warning@],
{
    let ghost before = warnings@;
    warnings.push(warning);
    assert(text::texts(warnings@) =~= text::texts(before) + seq![warning@]);
}

proof fn lemma_no_warnings(warnings: Seq<String>)
    ensures
        text::texts(warnings) == text::texts(warnings) + Seq::<Text>::empty(),
{
    assert(text::texts(warnings) =~= text::texts(warnings) + Seq::<Text>::empty());
}

/// A malformed date costs that one value, not the whole task.
fn read_date(
    object: &Object,
    selector: &PropertySelector,
    field: &str,
    warnings: &mut Vec<String>,
) -> (r: Result<Option<AnytypeDate>, SourceError>)
    ensures
        match r {
            Ok(date) => {
                let property = chosen(object.properties@, selector@);
                &&& ambiguity(object.properties@, selector@, field@) is None
                &&& model::date_view(date) == date_held(property)
                &&& text::texts(final(warnings)@) == text::texts(old(warnings)@) + date_warnings(
                    object.id@,
                    property,
                    field@,
                )
            },
            Err(SourceError::Schema(why)) => ambiguity(object.properties@, selector@, field@)
                == Some(why@),
            Err(_) => false,
        },
{
    proof {
        lemma_no_warnings(warnings@);
    }
    let property = match resolve_property(&object.properties, selector, field) {
        Ok(Some(property)) => property,
        Ok(None) => return Ok(None),
        Err(err) => return Err(err),
    };
    match &property.value {
        PropertyValue::Date { date } => match AnytypeDate::parse(date.as_str()) {
            Some(parsed) => Ok(Some(parsed)),
            None => {
                let mut m = text::glue("object ", object.id.as_str());
                m.append(" has an unparseable ");
                m.append(field);
                m.append(" date ");
                m.append(text::quote(date.as_str()).as_str());
                m.append("; treated as absent");
                warn(warnings, m);
                Ok(None)
            },
        },
        other => {
            let mut m = text::glue("object ", object.id.as_str());
            m.append(" has ");
            m.append(field);
            m.append(" of format ");
            m.append(other.format().name());
            m.append(", expected a date; treated as absent");
            warn(warnings, m);
            Ok(None)
        },
    }
}

/// What is said of a property for doneness that is no checkbox: taking every such task
/// as open would be wrong without any sign of it.
pub open spec fn done_problem(properties: Seq<Property>, selector: SelectorView) -> Option<Text> {
    match ambiguity(properties, selector, "done"@) {
        Some(why) => Some(why),
        None => match chosen(properties, selector) {
            Some(property) => match property.value {
                PropertyValue::Checkbox { .. } => None,
                other => Some(
                    "properties.done = \""@ + selector.written() + "\" resolves to a "@
                        + other.kind().named() + " property, expected a checkbox"@,
                ),
            },
            None => None,
        },
    }
}

/// Whether a property says that a task is done.
pub open spec fn done_held(property: Option<Property>) -> bool {
    match property {
        Some(property) => match property.value {
            PropertyValue::Checkbox { checkbox } => checkbox,
            _ => false,
        },
        None => false,
    }
}

fn read_done(object: &Object, selector: &PropertySelector) -> (r: Result<bool, SourceError>)
    ensures
        match r {
            Ok(done) => done_problem(object.properties@, selector@) is None && done == done_held(
                chosen(object.properties@, selector@),
            ),
            Err(SourceError::Schema(why)) => done_problem(object.properties@, selector@) == Some(
                why@,
            ),
            Err(_) => false,
        },
{
    match resolve_property(&object.properties, selector, "done") {
        Ok(Some(property)) => match &property.value {
            PropertyValue::Checkbox { checkbox } => Ok(*checkbox),
            other => {
                let mut why = text::glue("properties.done = \"", selector.text().as_str());
                why.append("\" resolves to a ");
                why.append(other.format().name());
                why.append(" property, expected a checkbox");
                Err(SourceError::Schema(why))
            },
        },
        Ok(None) => Ok(false),
        Err(err) => Err(err),
    }
}

/// The names of the options that a property holds: several, or one of a single choice.
pub open spec fn options_held(property: Property) -> Option<Seq<Text>> {
    match property.value {
        PropertyValue::MultiSelect { multi_select } => Some(
            Seq::new(multi_select@.len(), |i: int| multi_select@[i].name@),
        ),
        PropertyValue::Select { select } => Some(seq![select.name@]),
        _ => None,
    }
}

fn option_names(property: &Property) -> (r: Option<Vec<String>>)
    ensures
        writeback::list_change(r) == options_held(*property),
{
    match &property.value {
        PropertyValue::MultiSelect { multi_select } => {
            let mut names: Vec<String> = Vec::new();
            let mut i: usize = 0;
            while i < multi_select.len()
                invariant
                    i <= multi_select@.len(),
                    names@.len() == i,
                    forall|j: int| 0 <= j < i ==> (#[trigger] names@[j])@ == multi_select@[j].name@,
                decreases multi_select@.len() - i,
            {
                names.push(multi_select[i].name.clone());
                i += 1;
            }
            assert(text::texts(names@) =~= options_held(*property)->0);
            Some(names)
        },
        PropertyValue::Select { select } => {
            let names = vec![select.name.clone()];
            assert(text::texts(names@) =~= seq![select.name@]);
            Some(names)
        },
        _ => None,
    }
}

/// The names without white space around them, but for blank ones.
pub open spec fn filled_names(names: Seq<Text>) -> Seq<Text>
    decreases names.len(),
{
    if names.len() == 0 {
        seq![]
    } else if text::trimmed(names.last()).len() > 0 {
        filled_names(names.drop_last()).push(text::trimmed(names.last()))
    } else {
        filled_names(names.drop_last())
    }
}

fn fill_names(names: &Vec<String>) -> (r: Vec<String>)
    ensures
        text::texts(r@) == filled_names(text::texts(names@)),
{
    let ghost all = text::texts(names@);
    let mut r: Vec<String> = Vec::new();
    assert(text::texts(r@) == Seq::<Text>::empty());
    let mut i: usize = 0;
    while i < names.len()
        invariant
            i <= names@.len(),
            all == text::texts(names@),
            text::texts(r@) == filled_names(all.take(i as int)),
        decreases names@.len() - i,
    {
        assert(all.take(i + 1).drop_last() == all.take(i as int));
        assert(all.take(i + 1).last() == names@[i as int]@);
        let name = text::trim(names[i].as_str());
        let ghost before = r@;
        if name.unicode_len() > 0 {
            r.push(name.to_owned());
            assert(text::texts(r@) == text::texts(before).push(name@));
        }
        i += 1;
    }
    assert(all.take(names@.len() as int) == all);
    r
}

/// What is said of the names of options that are no length of time.
pub open spec fn lead_warnings(object_id: Text, names: Seq<Text>) -> Seq<Text>
    decreases names.len(),
{
    if names.len() == 0 {
        seq![]
    } else if time::span_text(text::trimmed(names.last())) is Some {
        lead_warnings(object_id, names.drop_last())
    } else {
        lead_warnings(object_id, names.drop_last()).push(
            "object "@ + object_id + " has reminder option "@ + text::quoted(names.last())
                + ", which is not a duration like \"30m\" or \"1d\"; ignored"@,
        )
    }
}

/// The optional property that an optional selector names.
pub open spec fn optional_chosen(
    properties: Seq<Property>,
    selector: Option<PropertySelector>,
) -> Option<Property> {
    match selector {
        Some(selector) => chosen(properties, selector@),
        None => None,
    }
}

pub open spec fn optional_ambiguity(
    properties: Seq<Property>,
    selector: Option<PropertySelector>,
    field: Text,
) -> Option<Text> {
    match selector {
        Some(selector) => ambiguity(properties, selector@, field),
        None => None,
    }
}

fn resolve_optional<'a>(
    properties: &'a Vec<Property>,
    selector: &Option<PropertySelector>,
    field: &str,
) -> (r: Result<Option<&'a Property>, SourceError>)
    ensures
        match r {
            Ok(found) => optional_ambiguity(properties@, *selector, field@) is None && match found {
                Some(property) => optional_chosen(properties@, *selector) == Some(*property),
                None => optional_chosen(properties@, *selector) is None,
            },
            Err(SourceError::Schema(why)) => optional_ambiguity(properties@, *selector, field@)
                == Some(why@),
            Err(_) => false,
        },
{
    match selector {
        Some(selector) => resolve_property(properties, selector, field),
        None => Ok(None),
    }
}

/// The lead times that a property holds.
pub open spec fn leads_held(property: Option<Property>) -> Seq<(int, int)> {
    match property {
        Some(property) => match options_held(property) {
            Some(names) => events::leads_of(names),
            None => seq![],
        },
        None => seq![],
    }
}

pub open spec fn reminder_warnings(object_id: Text, property: Option<Property>) -> Seq<Text> {
    match property {
        Some(property) => match options_held(property) {
            Some(names) => lead_warnings(object_id, names),
            None => seq![
                "object "@ + object_id + " has reminder of format "@
                    + property.value.kind().named()
                    + ", expected a select; using the default lead time"@,
            ],
        },
        None => seq![],
    }
}

/// The lead times of a task. They are the names of options, not their keys, which the
/// space writes otherwise. An option that is none costs that one value.
fn read_reminder_leads(
    object: &Object,
    selector: &Option<PropertySelector>,
    warnings: &mut Vec<String>,
) -> (r: Result<Vec<Span>, SourceError>)
    ensures
        match r {
            Ok(leads) => {
                let property = optional_chosen(object.properties@, *selector);
                &&& optional_ambiguity(object.properties@, *selector, "reminder"@) is None
                &&& events::spans(leads@) == leads_held(property)
                &&& text::texts(final(warnings)@) == text::texts(old(warnings)@)
                    + reminder_warnings(object.id@, property)
            },
            Err(SourceError::Schema(why)) => optional_ambiguity(
                object.properties@,
                *selector,
                "reminder"@,
            ) == Some(why@),
            Err(_) => false,
        },
{
    proof {
        lemma_no_warnings(warnings@);
    }
    let mut leads: Vec<Span> = Vec::new();
    assert(events::spans(leads@) == Seq::<(int, int)>::empty());
    let property = match resolve_optional(&object.properties, selector, "reminder") {
        Ok(Some(property)) => property,
        Ok(None) => return Ok(leads),
        Err(err) => return Err(err),
    };
    let names = match option_names(property) {
        Some(names) => names,
        None => {
            let mut m = text::glue("object ", object.id.as_str());
            m.append(" has reminder of format ");
            m.append(property.value.format().name());
            m.append(", expected a select; using the default lead time");
            warn(warnings, m);
            return Ok(leads);
        },
    };
    let ghost all = text::texts(names@);
    let ghost start = text::texts(warnings@);
    let mut i: usize = 0;
    while i < names.len()
        invariant
            i <= names@.len(),
            all == text::texts(names@),
            events::spans(leads@) == events::leads_of(all.take(i as int)),
            text::texts(warnings@) == start + lead_warnings(object.id@, all.take(i as int)),
        decreases names@.len() - i,
    {
        assert(all.take(i + 1).drop_last() == all.take(i as int));
        assert(all.take(i + 1).last() == names@[i as int]@);
        let ghost before = leads@;
        let ghost said = lead_warnings(object.id@, all.take(i as int));
        match time::parse_span(text::trim(names[i].as_str())) {
            Some(lead) => {
                leads.push(lead);
                assert(events::spans(leads@) == events::spans(before).push(
                    (lead.second(), lead.nano()),
                ));
            },
            None => {
                let mut m = text::glue("object ", object.id.as_str());
                m.append(" has reminder option ");
                m.append(text::quote(names[i].as_str()).as_str());
                m.append(", which is not a duration like \"30m\" or \"1d\"; ignored");
                assert((start + said) + seq![m@] =~= start + said.push(m@));
                warn(warnings, m);
            },
        }
        i += 1;
    }
    assert(all.take(names@.len() as int) == all);
    Ok(leads)
}

/// The tags that a property holds.
pub open spec fn tags_held(property: Option<Property>) -> Seq<Text> {
    match property {
        Some(property) => match options_held(property) {
            Some(names) => filled_names(names),
            None => seq![],
        },
        None => seq![],
    }
}

pub open spec fn tag_warnings(object_id: Text, property: Option<Property>) -> Seq<Text> {
    match property {
        Some(property) => match options_held(property) {
            Some(names) => seq![],
            None => seq![
                "object "@ + object_id + " has tags of format "@ + property.value.kind().named()
                    + ", expected a select; tags omitted"@,
            ],
        },
        None => seq![],
    }
}

/// The tags of a task. A wrong format costs the tags of that task, never the task.
fn read_tags(
    object: &Object,
    selector: &Option<PropertySelector>,
    warnings: &mut Vec<String>,
) -> (r: Result<Vec<String>, SourceError>)
    ensures
        match r {
            Ok(tags) => {
                let property = optional_chosen(object.properties@, *selector);
                &&& optional_ambiguity(object.properties@, *selector, "tags"@) is None
                &&& text::texts(tags@) == tags_held(property)
                &&& text::texts(final(warnings)@) == text::texts(old(warnings)@) + tag_warnings(
                    object.id@,
                    property,
                )
            },
            Err(SourceError::Schema(why)) => optional_ambiguity(
                object.properties@,
                *selector,
                "tags"@,
            ) == Some(why@),
            Err(_) => false,
        },
{
    proof {
        lemma_no_warnings(warnings@);
    }
    let none: Vec<String> = Vec::new();
    assert(text::texts(none@) == Seq::<Text>::empty());
    let property = match resolve_optional(&object.properties, selector, "tags") {
        Ok(Some(property)) => property,
        Ok(None) => return Ok(none),
        Err(err) => return Err(err),
    };
    match option_names(property) {
        Some(names) => Ok(fill_names(&names)),
        None => {
            let mut m = text::glue("object ", object.id.as_str());
            m.append(" has tags of format ");
            m.append(property.value.format().name());
            m.append(", expected a select; tags omitted");
            warn(warnings, m);
            Ok(none)
        },
    }
}

/// The people that a property holds.
pub open spec fn assignees_held(property: Option<Property>) -> Seq<Text> {
    match property {
        Some(property) => match property.value {
            PropertyValue::Objects { objects } => filled_names(text::texts(objects@)),
            _ => seq![],
        },
        None => seq![],
    }
}

pub open spec fn assignee_warnings(object_id: Text, property: Option<Property>) -> Seq<Text> {
    match property {
        Some(property) => match property.value {
            PropertyValue::Objects { .. } => seq![],
            other => seq![
                "object "@ + object_id + " has assignee of format "@ + other.kind().named()
                    + ", expected objects; assignees omitted"@,
            ],
        },
        None => seq![],
    }
}

/// The people a task is assigned to. A wrong format costs the assignees of that task,
/// never the task.
fn read_assignees(
    object: &Object,
    selector: &Option<PropertySelector>,
    warnings: &mut Vec<String>,
) -> (r: Result<Vec<String>, SourceError>)
    ensures
        match r {
            Ok(assignees) => {
                let property = optional_chosen(object.properties@, *selector);
                &&& optional_ambiguity(object.properties@, *selector, "assignee"@) is None
                &&& text::texts(assignees@) == assignees_held(property)
                &&& text::texts(final(warnings)@) == text::texts(old(warnings)@)
                    + assignee_warnings(object.id@, property)
            },
            Err(SourceError::Schema(why)) => optional_ambiguity(
                object.properties@,
                *selector,
                "assignee"@,
            ) == Some(why@),
            Err(_) => false,
        },
{
    proof {
        lemma_no_warnings(warnings@);
    }
    let none: Vec<String> = Vec::new();
    assert(text::texts(none@) == Seq::<Text>::empty());
    let property = match resolve_optional(&object.properties, selector, "assignee") {
        Ok(Some(property)) => property,
        Ok(None) => return Ok(none),
        Err(err) => return Err(err),
    };
    match &property.value {
        PropertyValue::Objects { objects } => Ok(fill_names(objects)),
        other => {
            let mut m = text::glue("object ", object.id.as_str());
            m.append(" has assignee of format ");
            m.append(other.format().name());
            m.append(", expected objects; assignees omitted");
            warn(warnings, m);
            Ok(none)
        },
    }
}

/// What a task is called: its name, or else the beginning of its text.
pub open spec fn task_name(name: Option<String>, snippet: Option<String>) -> Text {
    let best = match name {
        Some(name) => if text::trimmed(name@).len() > 0 {
            Some(name@)
        } else {
            text::text_of(snippet)
        },
        None => text::text_of(snippet),
    };
    match best {
        Some(name) => if text::trimmed(name).len() > 0 {
            text::trimmed(name)
        } else {
            "(unnamed)"@
        },
        None => "(unnamed)"@,
    }
}

fn trimmed_or_unnamed(name: &Option<String>) -> (r: String)
    ensures
        r@ == (match name {
            Some(name) => if text::trimmed(name@).len() > 0 {
                text::trimmed(name@)
            } else {
                "(unnamed)"@
            },
            None => "(unnamed)"@,
        }),
{
    match name {
        Some(name) => {
            let name = text::trim(name.as_str());
            if name.unicode_len() > 0 {
                name.to_owned()
            } else {
                "(unnamed)".to_owned()
            }
        },
        None => "(unnamed)".to_owned(),
    }
}

fn name_task(object: &Object) -> (r: String)
    ensures
        r@ == task_name(object.name, object.snippet),
{
    if let Some(name) = &object.name {
        let name = text::trim(name.as_str());
        if name.unicode_len() > 0 {
            return name.to_owned();
        }
    }
    trimmed_or_unnamed(&object.snippet)
}

/// The UID that a client gave an object, without white space around it.
pub open spec fn uid_held(properties: Seq<Property>) -> Option<Text> {
    match object::text_in(properties, "ical_uid"@) {
        Some(uid) => Some(text::trimmed(uid)),
        None => None,
    }
}

/// What keeps an object from being read as a task.
pub open spec fn task_problem(object: Object, properties: PropertiesConfig) -> Option<Text> {
    let p = object.properties@;
    match (
        ambiguity(p, properties.scheduled@, "scheduled"@),
        ambiguity(p, properties.deadline@, "deadline"@),
        done_problem(p, properties.done@),
        optional_ambiguity(p, properties.reminder, "reminder"@),
        optional_ambiguity(p, properties.tags, "tags"@),
        optional_ambiguity(p, properties.assignee, "assignee"@),
    ) {
        (Some(why), _, _, _, _, _) => Some(why),
        (_, Some(why), _, _, _, _) => Some(why),
        (_, _, Some(why), _, _, _) => Some(why),
        (_, _, _, Some(why), _, _) => Some(why),
        (_, _, _, _, Some(why), _) => Some(why),
        (_, _, _, _, _, Some(why)) => Some(why),
        _ => None,
    }
}

/// Everything that is said of an object's values while it is read as a task.
pub open spec fn task_warnings(object: Object, properties: PropertiesConfig) -> Seq<Text> {
    let p = object.properties@;
    date_warnings(object.id@, chosen(p, properties.scheduled@), "scheduled"@) + date_warnings(
        object.id@,
        chosen(p, properties.deadline@),
        "deadline"@,
    ) + reminder_warnings(object.id@, optional_chosen(p, properties.reminder)) + tag_warnings(
        object.id@,
        optional_chosen(p, properties.tags),
    ) + assignee_warnings(object.id@, optional_chosen(p, properties.assignee))
}

/// A task as plain values.
#[verifier::ext_equal]
pub struct TaskView {
    pub object_id: Text,
    pub name: Text,
    pub scheduled: Option<DateView>,
    pub deadline: Option<DateView>,
    pub done: bool,
    pub reminder_leads: Seq<(int, int)>,
    pub tags: Seq<Text>,
    pub assignees: Seq<Text>,
    pub ical_uid: Option<Text>,
    pub object_url: Option<Text>,
    pub last_modified: Option<(int, int)>,
}

/// The plain values of a task.
pub open spec fn task_view(task: Task) -> TaskView {
    TaskView {
        object_id: task.object_id@,
        name: task.name@,
        scheduled: model::date_view(task.scheduled),
        deadline: model::date_view(task.deadline),
        done: task.done,
        reminder_leads: events::spans(task.reminder_leads@),
        tags: text::texts(task.tags@),
        assignees: text::texts(task.assignees@),
        ical_uid: text::text_of(task.ical_uid),
        object_url: text::text_of(task.object_url),
        last_modified: match task.last_modified {
            Some(at) => Some((at.second(), at.nano())),
            None => None,
        },
    }
}

/// The task that an object stands for.
pub open spec fn task_of(object: Object, properties: PropertiesConfig) -> TaskView {
    let p = object.properties@;
    TaskView {
        object_id: object.id@,
        name: task_name(object.name, object.snippet),
        scheduled: date_held(chosen(p, properties.scheduled@)),
        deadline: date_held(chosen(p, properties.deadline@)),
        done: done_held(chosen(p, properties.done@)),
        reminder_leads: leads_held(optional_chosen(p, properties.reminder)),
        tags: tags_held(optional_chosen(p, properties.tags)),
        assignees: assignees_held(optional_chosen(p, properties.assignee)),
        ical_uid: uid_held(p),
        object_url: Some(object.link@),
        last_modified: event_source::moment_under(object::date_in(p, "last_modified_date"@)),
    }
}

proof fn lemma_joined(a: Seq<Text>, b: Seq<Text>, c: Seq<Text>)
    ensures
        (a + b) + c == a + (b + c),
{
    assert((a + b) + c =~= a + (b + c));
}

/// Reads an object as a task. What cannot be read of it is said among the warnings.
pub fn to_task(object: &Object, properties: &PropertiesConfig, warnings: &mut Vec<String>) -> (r:
    Result<Task, SourceError>)
    ensures
        match r {
            Ok(task) => {
                &&& task_problem(*object, *properties) is None
                &&& task_view(task) == task_of(*object, *properties)
                &&& text::texts(final(warnings)@) == text::texts(old(warnings)@) + task_warnings(
                    *object,
                    *properties,
                )
            },
            Err(SourceError::Schema(why)) => task_problem(*object, *properties) == Some(why@),
            Err(_) => false,
        },
{
    let ghost start = text::texts(warnings@);
    let name = name_task(object);
    let scheduled = match read_date(object, &properties.scheduled, "scheduled", warnings) {
        Ok(date) => date,
        Err(err) => return Err(err),
    };
    let ghost mut said = date_warnings(
        object.id@,
        chosen(object.properties@, properties.scheduled@),
        "scheduled"@,
    );
    let deadline = match read_date(object, &properties.deadline, "deadline", warnings) {
        Ok(date) => date,
        Err(err) => return Err(err),
    };
    proof {
        let more = date_warnings(
            object.id@,
            chosen(object.properties@, properties.deadline@),
            "deadline"@,
        );
        lemma_joined(start, said, more);
        said = said + more;
    }
    let done = match read_done(object, &properties.done) {
        Ok(done) => done,
        Err(err) => return Err(err),
    };
    let reminder_leads = match read_reminder_leads(object, &properties.reminder, warnings) {
        Ok(leads) => leads,
        Err(err) => return Err(err),
    };
    proof {
        let more = reminder_warnings(
            object.id@,
            optional_chosen(object.properties@, properties.reminder),
        );
        lemma_joined(start, said, more);
        said = said + more;
    }
    let tags = match read_tags(object, &properties.tags, warnings) {
        Ok(tags) => tags,
        Err(err) => return Err(err),
    };
    proof {
        let more = tag_warnings(
            object.id@,
            optional_chosen(object.properties@, properties.tags),
        );
        lemma_joined(start, said, more);
        said = said + more;
    }
    let assignees = match read_assignees(object, &properties.assignee, warnings) {
        Ok(assignees) => assignees,
        Err(err) => return Err(err),
    };
    proof {
        let more = assignee_warnings(
            object.id@,
            optional_chosen(object.properties@, properties.assignee),
        );
        lemma_joined(start, said, more);
        said = said + more;
    }
    let ical_uid = match object::text(object, "ical_uid") {
        Some(uid) => Some(text::trim(uid.as_str()).to_owned()),
        None => None,
    };
    assert(said == task_warnings(*object, *properties));
    Ok(
        Task {
            object_id: object.id.clone(),
            name,
            scheduled,
            deadline,
            done,
            reminder_leads,
            tags,
            assignees,
            ical_uid,
            object_url: Some(object.link.clone()),
            last_modified: event_source::modified(object),
        },
    )
}

/// The ids of people with that of their own object in place of that of their
/// membership, where they have one.
pub open spec fn normalized(ids: Seq<Text>, profiles: Seq<(Text, Text)>) -> Seq<Text> {
    Seq::new(
        ids.len(),
        |i: int|
            match table::at(profiles, ids[i]) {
                Some(profile) => profile,
                None => ids[i],
            },
    )
}

/// One person has one id, however a task addresses them.
pub fn normalize_assignees(task: &mut Task, profiles: &Table<String>)
    ensures
        task_view(*final(task)) == (TaskView {
            assignees: normalized(text::texts(old(task).assignees@), table::views(profiles@)),
            ..task_view(*old(task))
        }),
{
    let mut assignees: Vec<String> = Vec::new();
    let mut i: usize = 0;
    let ghost all = text::texts(task.assignees@);
    while i < task.assignees.len()
        invariant
            i <= task.assignees@.len(),
            all == text::texts(task.assignees@),
            assignees@.len() == i,
            forall|j: int|
                0 <= j < i ==> (#[trigger] assignees@[j])@ == normalized(
                    all,
                    table::views(profiles@),
                )[j],
        decreases task.assignees@.len() - i,
    {
        let id = task.assignees[i].as_str();
        assert(all[i as int] == id@);
        proof {
            table::lemma_views_at(profiles@, id@);
        }
        match profiles.get(id) {
            Some(profile) => assignees.push(profile.clone()),
            None => assignees.push(id.to_owned()),
        }
        i += 1;
    }
    assert(text::texts(assignees@) =~= normalized(all, table::views(profiles@)));
    task.assignees = assignees;
}

// ------------------------------------------------------------------- schema
/// The objects that references lead to.
pub open spec fn held(objects: Seq<&Object>) -> Seq<Object> {
    Seq::new(objects.len(), |i: int| *objects[i])
}

/// The objects that are not archived.
pub open spec fn live(objects: Seq<Object>) -> Seq<Object>
    decreases objects.len(),
{
    if objects.len() == 0 {
        seq![]
    } else if objects.last().archived {
        live(objects.drop_last())
    } else {
        live(objects.drop_last()).push(objects.last())
    }
}

/// The objects that are not archived; a search finds archived ones too.
pub fn live_objects<'a>(objects: &'a Vec<Object>) -> (r: Vec<&'a Object>)
    ensures
        held(r@) == live(objects@),
{
    let ghost all = objects@;
    let mut r: Vec<&'a Object> = Vec::new();
    assert(held(r@) == Seq::<Object>::empty());
    let mut i: usize = 0;
    while i < objects.len()
        invariant
            i <= objects@.len(),
            all == objects@,
            held(r@) == live(all.take(i as int)),
        decreases objects@.len() - i,
    {
        assert(all.take(i + 1).drop_last() == all.take(i as int));
        assert(all.take(i + 1).last() == objects@[i as int]);
        let ghost before = r@;
        if !objects[i].archived {
            r.push(&objects[i]);
            assert(held(r@) == held(before).push(objects@[i as int]));
        }
        i += 1;
    }
    assert(all.take(objects@.len() as int) == all);
    r
}

/// What is said where a space holds more objects than are read.
pub open spec fn too_many(config: AnytypeConfig) -> Text {
    "space "@ + config.space_id@ + " holds more than max_objects = "@ + text::decimal(
        config.max_objects as nat,
    ) + " objects of type "@ + config.type_key@
}

/// Whether one more object may be read when so many were.
pub fn within_limit(read: usize, config: &AnytypeConfig) -> (r: Result<(), SourceError>)
    ensures
        match r {
            Ok(()) => read < config.max_objects,
            Err(SourceError::TooManyObjects(why)) => read >= config.max_objects && why@
                == too_many(*config),
            Err(_) => false,
        },
{
    if read < config.max_objects {
        return Ok(());
    }
    let mut why = text::glue("space ", config.space_id.as_str());
    why.append(" holds more than max_objects = ");
    why.append(text::number(config.max_objects as u64).as_str());
    why.append(" objects of type ");
    why.append(config.type_key.as_str());
    Err(SourceError::TooManyObjects(why))
}

/// Whether an object has the property that a selector names. The objects are looked at
/// in their order, and one whose key is shared ends the search with what is said of it.
pub open spec fn seen(objects: Seq<Object>, selector: SelectorView, field: Text) -> Result<
    bool,
    Text,
>
    decreases objects.len(),
{
    if objects.len() == 0 {
        Ok(false)
    } else {
        match ambiguity(objects[0].properties@, selector, field) {
            Some(why) => Err(why),
            None => if chosen(objects[0].properties@, selector) is Some {
                Ok(true)
            } else {
                seen(objects.drop_first(), selector, field)
            },
        }
    }
}

fn is_seen(objects: &Vec<&Object>, selector: &PropertySelector, field: &str) -> (r: Result<
    bool,
    SourceError,
>)
    ensures
        match r {
            Ok(found) => seen(held(objects@), selector@, field@) == Ok::<bool, Text>(found),
            Err(SourceError::Schema(why)) => seen(held(objects@), selector@, field@) == Err::<
                bool,
                Text,
            >(why@),
            Err(_) => false,
        },
{
    let ghost all = held(objects@);
    let mut i: usize = 0;
    assert(all.skip(0) == all);
    while i < objects.len()
        invariant
            i <= objects@.len(),
            all == held(objects@),
            seen(all, selector@, field@) == seen(all.skip(i as int), selector@, field@),
        decreases objects@.len() - i,
    {
        assert(all.skip(i as int).drop_first() == all.skip(i + 1));
        assert(all.skip(i as int)[0] == *objects@[i as int]);
        match resolve_property(&objects[i].properties, selector, field) {
            Ok(Some(_)) => return Ok(true),
            Ok(None) => {},
            Err(err) => return Err(err),
        }
        i += 1;
    }
    Ok(false)
}

/// One of the properties that every task must have.
#[derive(Debug, Clone, Copy, PartialEq, Eq, Structural)]
pub enum Field {
    Scheduled,
    Deadline,
    Done,
}

impl Field {
    pub open spec fn written(self) -> Text {
        match self {
            Field::Scheduled => "scheduled"@,
            Field::Deadline => "deadline"@,
            Field::Done => "done"@,
        }
    }

    pub fn text(self) -> (r: &'static str)
        ensures
            r@ == self.written(),
    {
        match self {
            Field::Scheduled => "scheduled",
            Field::Deadline => "deadline",
            Field::Done => "done",
        }
    }

    pub open spec fn selector_in(self, properties: PropertiesConfig) -> PropertySelector {
        match self {
            Field::Scheduled => properties.scheduled,
            Field::Deadline => properties.deadline,
            Field::Done => properties.done,
        }
    }

    fn selector<'a>(self, properties: &'a PropertiesConfig) -> (r: &'a PropertySelector)
        ensures
            *r == self.selector_in(*properties),
    {
        match self {
            Field::Scheduled => &properties.scheduled,
            Field::Deadline => &properties.deadline,
            Field::Done => &properties.done,
        }
    }
}

/// The fields among some that no object has; the first that cannot be told ends the
/// search with what is said of it.
pub open spec fn unseen(
    objects: Seq<Object>,
    fields: Seq<Field>,
    properties: PropertiesConfig,
) -> Result<Seq<Field>, Text>
    decreases fields.len(),
{
    if fields.len() == 0 {
        Ok(seq![])
    } else {
        let field = fields.last();
        match unseen(objects, fields.drop_last(), properties) {
            Err(why) => Err(why),
            Ok(before) => match seen(objects, field.selector_in(properties)@, field.written()) {
                Err(why) => Err(why),
                Ok(true) => Ok(before),
                Ok(false) => Ok(before.push(field)),
            },
        }
    }
}

pub open spec fn required() -> Seq<Field> {
    seq![Field::Scheduled, Field::Deadline, Field::Done]
}

/// The fields that no task has. A space leaves out what nobody filled in, so such a
/// field is not yet a wrong selector: the space's list of properties tells. Without any
/// task there is nothing to hold the selectors against.
pub fn unresolved(objects: &Vec<&Object>, properties: &PropertiesConfig) -> (r: Result<
    Vec<Field>,
    SourceError,
>)
    ensures
        match r {
            Ok(fields) => if objects@.len() == 0 {
                fields@.len() == 0
            } else {
                unseen(held(objects@), required(), *properties) == Ok::<Seq<Field>, Text>(fields@)
            },
            Err(SourceError::Schema(why)) => objects@.len() > 0 && unseen(
                held(objects@),
                required(),
                *properties,
            ) == Err::<Seq<Field>, Text>(why@),
            Err(_) => false,
        },
{
    let mut fields: Vec<Field> = Vec::new();
    if objects.len() == 0 {
        return Ok(fields);
    }
    let all = vec![Field::Scheduled, Field::Deadline, Field::Done];
    assert(all@ =~= required());
    let mut i: usize = 0;
    while i < all.len()
        invariant
            i <= all@.len(),
            all@ == required(),
            objects@.len() > 0,
            unseen(held(objects@), all@.take(i as int), *properties) == Ok::<Seq<Field>, Text>(
                fields@,
            ),
        decreases all@.len() - i,
    {
        assert(all@.take(i + 1).drop_last() == all@.take(i as int));
        assert(all@.take(i + 1).last() == all@[i as int]);
        let field = all[i];
        match is_seen(objects, field.selector(properties), field.text()) {
            Ok(true) => {},
            Ok(false) => fields.push(field),
            Err(err) => {
                proof {
                    lemma_unseen_fails(held(objects@), all@, *properties, i + 1);
                }
                return Err(err);
            },
        }
        i += 1;
    }
    assert(all@.take(all@.len() as int) == all@);
    Ok(fields)
}

proof fn lemma_unseen_fails(
    objects: Seq<Object>,
    fields: Seq<Field>,
    properties: PropertiesConfig,
    n: int,
)
    requires
        0 <= n <= fields.len(),
        unseen(objects, fields.take(n), properties) is Err,
    ensures
        unseen(objects, fields, properties) == unseen(objects, fields.take(n), properties),
    decreases fields.len() - n,
{
    if n < fields.len() {
        assert(fields.take(n + 1).drop_last() == fields.take(n));
        lemma_unseen_fails(objects, fields, properties, n + 1);
    } else {
        assert(fields.take(n) == fields);
    }
}

/// Whether a space has the property that a selector names.
pub open spec fn exists_in(existing: Seq<ExistingView>, selector: SelectorView) -> bool {
    exists|i: int|
        0 <= i < existing.len() && match selector {
            SelectorView::Id(id) => (#[trigger] existing[i]).id == id,
            SelectorView::Key(key) => existing[i].key == key,
        }
}

fn does_exist(existing: &Vec<Existing>, selector: &PropertySelector) -> (r: bool)
    ensures
        r == exists_in(install::existing_view(existing@), selector@),
{
    let ghost all = install::existing_view(existing@);
    let mut i: usize = 0;
    while i < existing.len()
        invariant
            i <= existing@.len(),
            all == install::existing_view(existing@),
            forall|j: int|
                0 <= j < i ==> !(match selector@ {
                    SelectorView::Id(id) => (#[trigger] all[j]).id == id,
                    SelectorView::Key(key) => all[j].key == key,
                }),
        decreases existing@.len() - i,
    {
        assert(all[i as int] == existing@[i as int]@);
        let found = match selector {
            PropertySelector::Id(id) => text::same(existing[i].id.as_str(), id.as_str()),
            PropertySelector::Key(key) => text::same(existing[i].key.as_str(), key.as_str()),
        };
        if found {
            return true;
        }
        i += 1;
    }
    false
}

/// What is said of the fields whose selectors name nothing.
pub open spec fn field_words(
    fields: Seq<Field>,
    properties: PropertiesConfig,
    existing: Seq<ExistingView>,
) -> Seq<Text>
    decreases fields.len(),
{
    if fields.len() == 0 {
        seq![]
    } else {
        let before = field_words(fields.drop_last(), properties, existing);
        let selector = fields.last().selector_in(properties)@;
        if exists_in(existing, selector) {
            before
        } else {
            before.push(
                "properties."@ + fields.last().written() + " = \""@ + selector.written() + "\""@,
            )
        }
    }
}

/// A property as it is shown to a person who looks for the right selector.
pub open spec fn property_words(property: Property) -> Text {
    "key:"@ + property.key@ + " id:"@ + property.id@ + " name:"@ + text::quoted(property.name@)
        + " format:"@ + property.value.kind().named()
}

/// What is known of properties by their keys, with those of one more object.
pub open spec fn observed_on(before: Seq<(Text, Text)>, properties: Seq<Property>) -> Seq<
    (Text, Text),
>
    decreases properties.len(),
{
    if properties.len() == 0 {
        before
    } else {
        let front = observed_on(before, properties.drop_last());
        let property = properties.last();
        if table::at(front, property.key@) is Some {
            front
        } else {
            table::put(front, property.key@, property_words(property))
        }
    }
}

/// The properties that objects have, one for each key.
pub open spec fn observed_in(objects: Seq<Object>) -> Seq<(Text, Text)>
    decreases objects.len(),
{
    if objects.len() == 0 {
        seq![]
    } else {
        observed_on(observed_in(objects.drop_last()), objects.last().properties@)
    }
}

fn observe(seen: &mut Table<String>, property: &Property)
    ensures
        table::views(final(seen)@) == (if table::at(table::views(old(seen)@), property.key@) is Some {
            table::views(old(seen)@)
        } else {
            table::put(table::views(old(seen)@), property.key@, property_words(*property))
        }),
{
    proof {
        table::lemma_views_at(seen@, property.key@);
    }
    if !seen.contains_key(property.key.as_str()) {
        let mut line = text::glue("key:", property.key.as_str());
        line.append(" id:");
        line.append(property.id.as_str());
        line.append(" name:");
        line.append(text::quote(property.name.as_str()).as_str());
        line.append(" format:");
        line.append(property.value.format().name());
        proof {
            table::lemma_views_put(seen@, property.key@, line);
        }
        seen.insert(property.key.clone(), line);
    }
}

/// The properties that objects have, one for each key, in the order of the keys. They
/// are how a person finds the right selectors.
pub fn observed(objects: &Vec<&Object>) -> (r: Table<String>)
    ensures
        table::views(r@) == observed_in(held(objects@)),
{
    let ghost all = held(objects@);
    let mut r: Table<String> = Table::new();
    assert(table::views(r@) == Seq::<(Text, Text)>::empty());
    let mut i: usize = 0;
    while i < objects.len()
        invariant
            i <= objects@.len(),
            all == held(objects@),
            table::views(r@) == observed_in(all.take(i as int)),
        decreases objects@.len() - i,
    {
        assert(all.take(i + 1).drop_last() == all.take(i as int));
        assert(all.take(i + 1).last() == *objects@[i as int]);
        let properties = &objects[i].properties;
        let ghost before = table::views(r@);
        let mut k: usize = 0;
        assert(properties@.take(0) == Seq::<Property>::empty());
        while k < properties.len()
            invariant
                k <= properties@.len(),
                table::views(r@) == observed_on(before, properties@.take(k as int)),
            decreases properties@.len() - k,
        {
            assert(properties@.take(k + 1).drop_last() == properties@.take(k as int));
            observe(&mut r, &properties[k]);
            k += 1;
        }
        assert(properties@.take(properties@.len() as int) == properties@);
        i += 1;
    }
    assert(all.take(objects@.len() as int) == all);
    r
}

/// What is said where selectors name nothing.
pub open spec fn schema_problem(
    fields: Seq<Field>,
    properties: PropertiesConfig,
    existing: Seq<ExistingView>,
    objects: Seq<Object>,
    type_key: Text,
) -> Option<Text> {
    let wrong = field_words(fields, properties, existing);
    if wrong.len() == 0 {
        None
    } else {
        Some(
            text::join(wrong, ", "@) + " did not match any property on type "@ + type_key + "; "@
                + text::decimal(observed_in(objects).len())
                + " properties were observed and logged"@,
        )
    }
}

/// Fails loudly where a configured selector names nothing: every task would silently be
/// without dates, or open. `fields` are those that no task has, `existing` the
/// properties of the space.
pub fn verify_schema(
    fields: &Vec<Field>,
    properties: &PropertiesConfig,
    existing: &Vec<Existing>,
    objects: &Vec<&Object>,
    type_key: &str,
) -> (r: Result<(), SourceError>)
    ensures
        ({
            let problem = schema_problem(
                fields@,
                *properties,
                install::existing_view(existing@),
                held(objects@),
                type_key@,
            );
            match r {
                Ok(()) => problem is None,
                Err(SourceError::Schema(why)) => problem == Some(why@),
                Err(_) => false,
            }
        }),
{
    let ghost space = install::existing_view(existing@);
    let mut wrong: Vec<String> = Vec::new();
    assert(text::texts(wrong@) == Seq::<Text>::empty());
    let mut i: usize = 0;
    while i < fields.len()
        invariant
            i <= fields@.len(),
            space == install::existing_view(existing@),
            text::texts(wrong@) == field_words(fields@.take(i as int), *properties, space),
        decreases fields@.len() - i,
    {
        assert(fields@.take(i + 1).drop_last() == fields@.take(i as int));
        let selector = fields[i].selector(properties);
        let ghost before = wrong@;
        if !does_exist(existing, selector) {
            let mut m = text::glue("properties.", fields[i].text());
            m.append(" = \"");
            m.append(selector.text().as_str());
            m.append("\"");
            wrong.push(m);
            assert(text::texts(wrong@) == text::texts(before).push(m@));
        }
        i += 1;
    }
    assert(fields@.take(fields@.len() as int) == fields@);
    assert(text::texts(wrong@).len() == wrong@.len());
    if wrong.len() == 0 {
        return Ok(());
    }
    let seen = observed(objects);
    assert(table::views(seen@).len() == seen@.len());
    let mut why = text::join_all(&wrong, ", ");
    why.append(" did not match any property on type ");
    why.append(type_key);
    why.append("; ");
    why.append(text::number(seen.len() as u64).as_str());
    why.append(" properties were observed and logged");
    Err(SourceError::Schema(why))
}

// ---------------------------------------------------------------- directory
/// A member of the space.
#[derive(Debug)]
pub struct Member {
    pub id: String,
    pub name: String,
    pub active: bool,
}

/// The people a task can be assigned to.
pub struct Directory {
    /// Names by the id a calendar is keyed on.
    pub names: Table<String>,
    /// The id of a person's own object by that of their membership, so that one person
    /// has one calendar however a task addresses them.
    pub profiles_by_participant: Table<String>,
    /// The people who may sign in.
    pub account_holders: Vec<String>,
}

#[verifier::ext_equal]
pub struct DirectoryView {
    pub names: Seq<(Text, Text)>,
    pub profiles: Seq<(Text, Text)>,
    pub holders: Seq<Text>,
}

impl View for Directory {
    type V = DirectoryView;

    open spec fn view(&self) -> DirectoryView {
        DirectoryView {
            names: table::views(self.names@),
            profiles: table::views(self.profiles_by_participant@),
            holders: text::texts(self.account_holders@),
        }
    }
}

/// The memberships among some links, each leading to a person.
pub open spec fn linked(profiles: Seq<(Text, Text)>, links: Seq<Text>, person: Text) -> Seq<
    (Text, Text),
>
    decreases links.len(),
{
    if links.len() == 0 {
        profiles
    } else {
        let front = linked(profiles, links.drop_last(), person);
        if text::starts_with(links.last(), accounts::PARTICIPANT_PREFIX@) {
            table::put(front, links.last(), person)
        } else {
            front
        }
    }
}

/// The people with an object of their own.
pub open spec fn with_profiles(objects: Seq<Object>) -> DirectoryView
    decreases objects.len(),
{
    if objects.len() == 0 {
        DirectoryView { names: seq![], profiles: seq![], holders: seq![] }
    } else {
        let front = with_profiles(objects.drop_last());
        let one = objects.last();
        if one.archived {
            front
        } else {
            DirectoryView {
                names: table::put(front.names, one.id@, accounts::person_name(one)),
                profiles: linked(
                    front.profiles,
                    object::links_in(one.properties@, "links"@),
                    one.id@,
                ),
                holders: front.holders,
            }
        }
    }
}

/// The people of the space: an active member behind an object of their own may sign in
/// under that, and one without is known by their membership.
pub open spec fn with_members(directory: DirectoryView, members: Seq<Member>) -> DirectoryView
    decreases members.len(),
{
    if members.len() == 0 {
        directory
    } else {
        let front = with_members(directory, members.drop_last());
        let one = members.last();
        if !one.active {
            front
        } else {
            match table::at(front.profiles, one.id@) {
                Some(profile) => if front.holders.contains(profile) {
                    front
                } else {
                    DirectoryView { holders: front.holders.push(profile), ..front }
                },
                None => DirectoryView {
                    names: table::put(front.names, one.id@, one.name@),
                    ..front
                },
            }
        }
    }
}

fn link_members(profiles: &mut Table<String>, links: &Vec<String>, person: &str)
    ensures
        table::views(final(profiles)@) == linked(
            table::views(old(profiles)@),
            text::texts(links@),
            person@,
        ),
{
    let ghost start = table::views(profiles@);
    let ghost all = text::texts(links@);
    let mut i: usize = 0;
    while i < links.len()
        invariant
            i <= links@.len(),
            all == text::texts(links@),
            table::views(profiles@) == linked(start, all.take(i as int), person@),
        decreases links@.len() - i,
    {
        assert(all.take(i + 1).drop_last() == all.take(i as int));
        assert(all.take(i + 1).last() == links@[i as int]@);
        if text::begins(links[i].as_str(), accounts::PARTICIPANT_PREFIX) {
            let to = person.to_owned();
            proof {
                table::lemma_views_put(profiles@, links@[i as int]@, to);
            }
            profiles.insert(links[i].clone(), to);
        }
        i += 1;
    }
    assert(all.take(links@.len() as int) == all);
}

/// The people a task can be assigned to, out of the objects that the space keeps for
/// people and of its members. A person's own page links their membership, which is the
/// only bridge between the two ids that a task may name.
pub fn read_directory(objects: &Vec<Object>, members: &Vec<Member>) -> (r: Directory)
    ensures
        r@ == with_members(with_profiles(objects@), members@),
{
    let mut names: Table<String> = Table::new();
    let mut profiles: Table<String> = Table::new();
    let mut holders: Vec<String> = Vec::new();
    assert(table::views(names@) == Seq::<(Text, Text)>::empty());
    assert(table::views(profiles@) == Seq::<(Text, Text)>::empty());
    assert(text::texts(holders@) == Seq::<Text>::empty());
    let mut i: usize = 0;
    while i < objects.len()
        invariant
            i <= objects@.len(),
            text::texts(holders@) == Seq::<Text>::empty(),
            with_profiles(objects@.take(i as int)) == (DirectoryView {
                names: table::views(names@),
                profiles: table::views(profiles@),
                holders: text::texts(holders@),
            }),
        decreases objects@.len() - i,
    {
        assert(objects@.take(i + 1).drop_last() == objects@.take(i as int));
        assert(objects@.take(i + 1).last() == objects@[i as int]);
        let one = &objects[i];
        if !one.archived {
            let links = object::links(one, "links");
            link_members(&mut profiles, &links, one.id.as_str());
            let name = accounts::name_of_person(one);
            proof {
                table::lemma_views_put(names@, one.id@, name);
            }
            names.insert(one.id.clone(), name);
        }
        i += 1;
    }
    assert(objects@.take(objects@.len() as int) == objects@);
    let ghost start = with_profiles(objects@);
    let mut i: usize = 0;
    assert(members@.take(0) == Seq::<Member>::empty());
    while i < members.len()
        invariant
            i <= members@.len(),
            start == with_profiles(objects@),
            with_members(start, members@.take(i as int)) == (DirectoryView {
                names: table::views(names@),
                profiles: table::views(profiles@),
                holders: text::texts(holders@),
            }),
        decreases members@.len() - i,
    {
        assert(members@.take(i + 1).drop_last() == members@.take(i as int));
        assert(members@.take(i + 1).last() == members@[i as int]);
        let one = &members[i];
        if one.active {
            proof {
                table::lemma_views_at(profiles@, one.id@);
            }
            match profiles.get(one.id.as_str()) {
                Some(profile) => {
                    if !text::listed(&holders, profile.as_str()) {
                        let ghost before = holders@;
                        holders.push(profile.clone());
                        assert(text::texts(holders@) == text::texts(before).push(profile@));
                    }
                },
                None => {
                    let name = one.name.clone();
                    proof {
                        table::lemma_views_put(names@, one.id@, name);
                    }
                    names.insert(one.id.clone(), name);
                },
            }
        }
        i += 1;
    }
    assert(members@.take(members@.len() as int) == members@);
    Directory { names, profiles_by_participant: profiles, account_holders: holders }
}

proof fn lemma_holders_have_profiles(directory: DirectoryView, members: Seq<Member>)
    requires
        forall|x: Text| directory.holders.contains(x) ==> false,
    ensures
        with_members(directory, members).profiles == directory.profiles,
        forall|person: Text| #[trigger]
            with_members(directory, members).holders.contains(person) <==> exists|i: int|
                0 <= i < members.len() && (#[trigger] members[i]).active && table::at(
                    directory.profiles,
                    members[i].id@,
                ) == Some(person),
    decreases members.len(),
{
    if members.len() > 0 {
        let front = members.drop_last();
        let one = members.last();
        lemma_holders_have_profiles(directory, front);
        let before = with_members(directory, front);
        let after = with_members(directory, members);
        assert forall|person: Text| #[trigger] after.holders.contains(person) <==> exists|i: int|
            0 <= i < members.len() && (#[trigger] members[i]).active && table::at(
                directory.profiles,
                members[i].id@,
            ) == Some(person) by {
            let new = one.active && table::at(directory.profiles, one.id@) == Some(person);
            if after.holders != before.holders {
                let added = table::at(before.profiles, one.id@)->0;
                assert(after.holders == before.holders.push(added));
                if before.holders.contains(person) {
                    let k = choose|k: int| 0 <= k < before.holders.len() && before.holders[k] == person;
                    assert(after.holders[k] == person);
                }
                if person == added {
                    assert(after.holders[before.holders.len() as int] == person);
                }
            }
            assert(after.holders.contains(person) <==> before.holders.contains(person) || new);
            if new {
                assert(members[members.len() - 1] == one);
            }
            if before.holders.contains(person) {
                let i = choose|i: int|
                    0 <= i < front.len() && (#[trigger] front[i]).active && table::at(
                        directory.profiles,
                        front[i].id@,
                    ) == Some(person);
                assert(members[i] == front[i]);
            }
            if exists|i: int|
                0 <= i < members.len() && (#[trigger] members[i]).active && table::at(
                    directory.profiles,
                    members[i].id@,
                ) == Some(person) {
                let i = choose|i: int|
                    0 <= i < members.len() && (#[trigger] members[i]).active && table::at(
                        directory.profiles,
                        members[i].id@,
                    ) == Some(person);
                if i < front.len() {
                    assert(front[i] == members[i]);
                    assert(before.holders.contains(person));
                }
            }
        }
    }
}

/// Exactly the people whose own page links an active member may sign in: who leaves the
/// space loses their account at the next reading.
pub proof fn law_accounts_end_with_the_membership(
    objects: Seq<Object>,
    members: Seq<Member>,
    person: Text,
)
    ensures
        ({
            let directory = with_members(with_profiles(objects), members);
            directory.holders.contains(person) <==> exists|i: int|
                0 <= i < members.len() && (#[trigger] members[i]).active && table::at(
                    directory.profiles,
                    members[i].id@,
                ) == Some(person)
        }),
{
    lemma_no_holders(objects);
    lemma_holders_have_profiles(with_profiles(objects), members);
}

proof fn lemma_no_holders(objects: Seq<Object>)
    ensures
        with_profiles(objects).holders.len() == 0,
    decreases objects.len(),
{
    if objects.len() > 0 {
        lemma_no_holders(objects.drop_last());
    }
}

// -------------------------------------------------------------------- batch
/// What keeps objects from being read as tasks.
pub open spec fn tasks_problem(objects: Seq<Object>, properties: PropertiesConfig) -> Option<Text>
    decreases objects.len(),
{
    if objects.len() == 0 {
        None
    } else {
        match tasks_problem(objects.drop_last(), properties) {
            Some(why) => Some(why),
            None => task_problem(objects.last(), properties),
        }
    }
}

/// Everything that is said of the objects' values while they are read as tasks.
pub open spec fn tasks_warnings(objects: Seq<Object>, properties: PropertiesConfig) -> Seq<Text>
    decreases objects.len(),
{
    if objects.len() == 0 {
        seq![]
    } else {
        tasks_warnings(objects.drop_last(), properties) + task_warnings(objects.last(), properties)
    }
}

/// The task that an object stands for, with one id for each person.
pub open spec fn listed_task(
    object: Object,
    properties: PropertiesConfig,
    directory: Option<DirectoryView>,
) -> TaskView {
    let task = task_of(object, properties);
    match directory {
        Some(directory) => TaskView {
            assignees: normalized(task.assignees, directory.profiles),
            ..task
        },
        None => task,
    }
}

pub open spec fn tasks_view(tasks: Seq<Task>) -> Seq<TaskView> {
    Seq::new(tasks.len(), |i: int| task_view(tasks[i]))
}

pub open spec fn listed_tasks(
    objects: Seq<Object>,
    properties: PropertiesConfig,
    directory: Option<DirectoryView>,
) -> Seq<TaskView> {
    Seq::new(objects.len(), |i: int| listed_task(objects[i], properties, directory))
}

pub open spec fn directory_view(directory: Option<Directory>) -> Option<DirectoryView> {
    match directory {
        Some(directory) => Some(directory@),
        None => None,
    }
}

proof fn lemma_tasks_fail(objects: Seq<Object>, properties: PropertiesConfig, n: int)
    requires
        0 <= n <= objects.len(),
        tasks_problem(objects.take(n), properties) is Some,
    ensures
        tasks_problem(objects, properties) == tasks_problem(objects.take(n), properties),
    decreases objects.len() - n,
{
    if n < objects.len() {
        assert(objects.take(n + 1).drop_last() == objects.take(n));
        lemma_tasks_fail(objects, properties, n + 1);
    } else {
        assert(objects.take(n) == objects);
    }
}

/// The tasks of a space: one for each object, in their order. With a directory every
/// person has one id, and a calendar of their own.
pub fn list_tasks(
    objects: &Vec<&Object>,
    properties: &PropertiesConfig,
    directory: Option<Directory>,
) -> (r: Result<TaskBatch, SourceError>)
    ensures
        match r {
            Ok(batch) => {
                let all = held(objects@);
                let people = directory_view(directory);
                &&& tasks_problem(all, *properties) is None
                &&& tasks_view(batch.tasks@) == listed_tasks(all, *properties, people)
                &&& text::texts(batch.warnings@) == tasks_warnings(all, *properties)
                &&& match people {
                    Some(people) => table::views(batch.members@) == people.names && text::texts(
                        batch.account_holders@,
                    ) == people.holders,
                    None => batch.members@.len() == 0 && batch.account_holders@.len() == 0,
                }
            },
            Err(SourceError::Schema(why)) => tasks_problem(held(objects@), *properties) == Some(
                why@,
            ),
            Err(_) => false,
        },
{
    let ghost all = held(objects@);
    let ghost people = directory_view(directory);
    let mut tasks: Vec<Task> = Vec::new();
    let mut warnings: Vec<String> = Vec::new();
    assert(text::texts(warnings@) == Seq::<Text>::empty());
    let mut i: usize = 0;
    while i < objects.len()
        invariant
            i <= objects@.len(),
            all == held(objects@),
            people == directory_view(directory),
            tasks_problem(all.take(i as int), *properties) is None,
            tasks@.len() == i,
            forall|j: int|
                0 <= j < i ==> task_view(#[trigger] tasks@[j]) == listed_task(
                    all[j],
                    *properties,
                    people,
                ),
            text::texts(warnings@) == tasks_warnings(all.take(i as int), *properties),
        decreases objects@.len() - i,
    {
        assert(all.take(i + 1).drop_last() == all.take(i as int));
        assert(all.take(i + 1).last() == *objects@[i as int]);
        match to_task(objects[i], properties, &mut warnings) {
            Ok(read) => {
                let mut task = read;
                if let Some(directory) = &directory {
                    normalize_assignees(&mut task, &directory.profiles_by_participant);
                }
                tasks.push(task);
            },
            Err(err) => {
                proof {
                    lemma_tasks_fail(all, *properties, i + 1);
                }
                return Err(err);
            },
        }
        i += 1;
    }
    assert(all.take(objects@.len() as int) == all);
    assert(tasks_view(tasks@) =~= listed_tasks(all, *properties, people));
    match directory {
        Some(directory) => Ok(
            TaskBatch {
                tasks,
                warnings,
                members: directory.names,
                account_holders: directory.account_holders,
            },
        ),
        None => Ok(
            TaskBatch { tasks, warnings, members: Table::new(), account_holders: Vec::new() },
        ),
    }
}

/// Reads one object as a task: an archived one is none.
pub fn get_task(
    object: &Object,
    properties: &PropertiesConfig,
    profiles: &Table<String>,
    warnings: &mut Vec<String>,
) -> (r: Result<Option<Task>, SourceError>)
    ensures
        match r {
            Ok(None) => object.archived,
            Ok(Some(task)) => {
                &&& !object.archived
                &&& task_problem(*object, *properties) is None
                &&& task_view(task) == (TaskView {
                    assignees: normalized(
                        task_of(*object, *properties).assignees,
                        table::views(profiles@),
                    ),
                    ..task_of(*object, *properties)
                })
                &&& text::texts(final(warnings)@) == text::texts(old(warnings)@) + task_warnings(
                    *object,
                    *properties,
                )
            },
            Err(SourceError::Schema(why)) => !object.archived && task_problem(*object, *properties)
                == Some(why@),
            Err(_) => false,
        },
{
    if object.archived {
        return Ok(None);
    }
    match to_task(object, properties, warnings) {
        Ok(read) => {
            let mut task = read;
            normalize_assignees(&mut task, profiles);
            Ok(Some(task))
        },
        Err(err) => Err(err),
    }
}

// ------------------------------------------------------------------- writes
/// The properties that a patch writes, but for tags and assignees. A date that is none
/// clears the property.
pub open spec fn patch_settings(patch: PatchView) -> Seq<SettingView> {
    let done: Seq<SettingView> = match patch.done {
        Some(checkbox) => seq![SettingView::Checkbox { key: "done"@, checkbox }],
        None => seq![],
    };
    event_source::with_date(
        event_source::with_date(done, "scheduled"@, patch.scheduled),
        "due_date"@,
        patch.deadline,
    )
}

fn put_patch(list: &mut Vec<Setting>, patch: &Patch)
    ensures
        object::settings(final(list)@) == object::settings(old(list)@) + patch_settings(patch@),
{
    let ghost start = object::settings(list@);
    if let Some(checkbox) = patch.done {
        object::put_setting(list, Setting::Checkbox { key: "done".to_owned(), checkbox });
    }
    event_source::put_date(list, "scheduled", &patch.scheduled);
    event_source::put_date(list, "due_date", &patch.deadline);
    assert(object::settings(list@) =~= start + patch_settings(patch@));
}

/// The properties that a patch writes, but for tags and assignees.
pub fn patch_properties(patch: &Patch) -> (r: Vec<Setting>)
    ensures
        object::settings(r@) == patch_settings(patch@),
{
    let mut r: Vec<Setting> = Vec::new();
    assert(object::settings(r@) == Seq::<SettingView>::empty());
    put_patch(&mut r, patch);
    assert(object::settings(r@) =~= patch_settings(patch@));
    r
}

/// The properties of a task that a client makes under a UID, but for tags and
/// assignees.
pub fn creation_properties(uid: &str, patch: &Patch) -> (r: Vec<Setting>)
    ensures
        object::settings(r@) == seq![SettingView::Text { key: "ical_uid"@, text: uid@ }]
            + patch_settings(patch@),
{
    let mut r: Vec<Setting> = Vec::new();
    object::put_setting(
        &mut r,
        Setting::Text { key: "ical_uid".to_owned(), text: uid.to_owned() },
    );
    assert(object::settings(r@) =~= seq![SettingView::Text { key: "ical_uid"@, text: uid@ }]);
    put_patch(&mut r, patch);
    r
}

/// The name of a task that a client makes: the one it gave, or a stand-in.
pub fn creation_name(patch: &Patch) -> (r: String)
    ensures
        r@ == (match patch@.name {
            Some(name) => name,
            None => "(unnamed)"@,
        }),
{
    match &patch.name {
        Some(name) => name.clone(),
        None => "(unnamed)".to_owned(),
    }
}

/// The key of the first property with an id.
pub open spec fn key_under(existing: Seq<ExistingView>, id: Text) -> Option<Text>
    decreases existing.len(),
{
    if existing.len() == 0 {
        None
    } else if existing[0].id == id {
        Some(existing[0].key)
    } else {
        key_under(existing.drop_first(), id)
    }
}

/// The key that a selector names, by which a property is written. The properties of the
/// space are needed for an id alone.
pub fn property_key(selector: &PropertySelector, role: &str, existing: &Vec<Existing>) -> (r:
    Result<String, SourceError>)
    ensures
        match (selector@, r) {
            (SelectorView::Key(key), Ok(found)) => found@ == key,
            (SelectorView::Key(_), Err(_)) => false,
            (SelectorView::Id(id), Ok(found)) => key_under(
                install::existing_view(existing@),
                id,
            ) == Some(found@),
            (SelectorView::Id(id), Err(SourceError::Schema(why))) => key_under(
                install::existing_view(existing@),
                id,
            ) is None && why@ == role@ + " property "@ + id + " not found"@,
            (SelectorView::Id(_), Err(_)) => false,
        },
{
    match selector {
        PropertySelector::Key(key) => Ok(key.clone()),
        PropertySelector::Id(id) => {
            let ghost all = install::existing_view(existing@);
            let mut i: usize = 0;
            assert(all.skip(0) == all);
            while i < existing.len()
                invariant
                    i <= existing@.len(),
                    all == install::existing_view(existing@),
                    selector@ == SelectorView::Id(id@),
                    key_under(all, id@) == key_under(all.skip(i as int), id@),
                decreases existing@.len() - i,
            {
                assert(all.skip(i as int).drop_first() == all.skip(i + 1));
                assert(all.skip(i as int)[0] == existing@[i as int]@);
                if text::same(existing[i].id.as_str(), id.as_str()) {
                    return Ok(existing[i].key.clone());
                }
                i += 1;
            }
            let mut why = text::glue(role, " property ");
            why.append(id.as_str());
            why.append(" not found");
            Err(SourceError::Schema(why))
        },
    }
}

/// The id of the first property with a key.
pub open spec fn id_under(existing: Seq<ExistingView>, key: Text) -> Option<Text>
    decreases existing.len(),
{
    if existing.len() == 0 {
        None
    } else if existing[0].key == key {
        Some(existing[0].id)
    } else {
        id_under(existing.drop_first(), key)
    }
}

/// The id of the select property whose options are chosen or made.
pub fn property_id(key: &str, existing: &Vec<Existing>) -> (r: Result<String, SourceError>)
    ensures
        match r {
            Ok(id) => id_under(install::existing_view(existing@), key@) == Some(id@),
            Err(SourceError::Schema(why)) => id_under(
                install::existing_view(existing@),
                key@,
            ) is None && why@ == "space has no "@ + key@ + " property"@,
            Err(_) => false,
        },
{
    let ghost all = install::existing_view(existing@);
    let mut i: usize = 0;
    assert(all.skip(0) == all);
    while i < existing.len()
        invariant
            i <= existing@.len(),
            all == install::existing_view(existing@),
            id_under(all, key@) == id_under(all.skip(i as int), key@),
        decreases existing@.len() - i,
    {
        assert(all.skip(i as int).drop_first() == all.skip(i + 1));
        assert(all.skip(i as int)[0] == existing@[i as int]@);
        if text::same(existing[i].key.as_str(), key) {
            return Ok(existing[i].id.clone());
        }
        i += 1;
    }
    let mut why = text::glue("space has no ", key);
    why.append(" property");
    Err(SourceError::Schema(why))
}

/// The tags that a patch writes and the property it writes them to. They are written
/// only where a selector is configured.
pub fn tags_to_write<'a>(patch: &'a Patch, properties: &'a PropertiesConfig) -> (r: Option<
    (&'a Vec<String>, &'a PropertySelector),
>)
    ensures
        match r {
            Some((names, selector)) => patch.tags == Some(*names) && properties.tags == Some(
                *selector,
            ),
            None => patch.tags is None || properties.tags is None,
        },
{
    match (&patch.tags, &properties.tags) {
        (Some(names), Some(selector)) => Some((names, selector)),
        _ => None,
    }
}

/// The people that a patch writes and the property it writes them to. They are written
/// only where a selector is configured.
pub fn assignees_to_write<'a>(patch: &'a Patch, properties: &'a PropertiesConfig) -> (r: Option<
    (&'a Vec<String>, &'a PropertySelector),
>)
    ensures
        match r {
            Some((ids, selector)) => patch.assignees == Some(*ids) && properties.assignee == Some(
                *selector,
            ),
            None => patch.assignees is None || properties.assignee is None,
        },
{
    match (&patch.assignees, &properties.assignee) {
        (Some(ids), Some(selector)) => Some((ids, selector)),
        _ => None,
    }
}

// ------------------------------------------------------- what is read of the space

/// Whether a selector names the property at a place: the first with its id, or the only one
/// with its key.
pub open spec fn names_property(properties: Seq<Property>, selector: SelectorView, i: int) -> bool {
    &&& 0 <= i < properties.len()
    &&& match selector {
        SelectorView::Id(id) => properties[i].id@ == id && forall|j: int|
            0 <= j < i ==> (#[trigger] properties[j]).id@ != id,
        SelectorView::Key(key) => properties[i].key@ == key && forall|j: int|
            0 <= j < properties.len() && j != i ==> (#[trigger] properties[j]).key@ != key,
    }
}

/// Whether a selector names no property.
pub open spec fn names_nothing(properties: Seq<Property>, selector: SelectorView) -> bool {
    forall|i: int|
        0 <= i < properties.len() ==> match selector {
            SelectorView::Id(id) => (#[trigger] properties[i]).id@ != id,
            SelectorView::Key(key) => properties[i].key@ != key,
        }
}

proof fn lemma_first_with_id(properties: Seq<Property>, id: Text, i: int)
    requires
        names_property(properties, SelectorView::Id(id), i),
    ensures
        first_with_id(properties, id) == Some(properties[i]),
    decreases i,
{
    if i > 0 {
        let rest = properties.drop_first();
        assert(properties[0].id@ != id);
        assert forall|j: int| 0 <= j < i - 1 implies (#[trigger] rest[j]).id@ != id by {
            assert(rest[j] == properties[j + 1]);
        }
        lemma_first_with_id(rest, id, i - 1);
    }
}

proof fn lemma_none_with_id(properties: Seq<Property>, id: Text)
    requires
        names_nothing(properties, SelectorView::Id(id)),
    ensures
        first_with_id(properties, id) is None,
    decreases properties.len(),
{
    if properties.len() > 0 {
        assert(properties[0].id@ != id);
        let rest = properties.drop_first();
        assert forall|i: int| 0 <= i < rest.len() implies (#[trigger] rest[i]).id@ != id by {
            assert(rest[i] == properties[i + 1]);
        }
        lemma_none_with_id(rest, id);
    }
}

proof fn lemma_keyed(properties: Seq<Property>, key: Text)
    ensures
        forall|k: int|
            0 <= k < keyed(properties, key).len() ==> (#[trigger] keyed(properties, key)[k]).key@
                == key && properties.contains(keyed(properties, key)[k]),
        forall|i: int|
            0 <= i < properties.len() && (#[trigger] properties[i]).key@ == key ==> keyed(
                properties,
                key,
            ).contains(properties[i]),
    decreases properties.len(),
{
    let all = keyed(properties, key);
    if properties.len() > 0 {
        let front = properties.drop_last();
        let before = keyed(front, key);
        lemma_keyed(front, key);
        let last = properties.len() - 1;
        assert(properties[last] == properties.last());
        assert forall|k: int| 0 <= k < all.len() implies (#[trigger] all[k]).key@ == key
            && properties.contains(all[k]) by {
            if k < before.len() {
                assert(all[k] == before[k]);
                let i = choose|i: int| 0 <= i < front.len() && front[i] == before[k];
                assert(properties[i] == before[k]);
            }
        }
        assert forall|i: int| 0 <= i < properties.len() && (#[trigger] properties[i]).key@
            == key implies all.contains(properties[i]) by {
            if i < last {
                assert(front[i] == properties[i]);
                let k = choose|k: int| 0 <= k < before.len() && before[k] == front[i];
                assert(all[k] == properties[i]);
            } else {
                assert(all[all.len() - 1] == properties[i]);
            }
        }
    }
}

proof fn lemma_keyed_once(properties: Seq<Property>, key: Text, i: int)
    requires
        names_property(properties, SelectorView::Key(key), i),
    ensures
        keyed(properties, key) == seq![properties[i]],
    decreases properties.len(),
{
    let front = properties.drop_last();
    let last = properties.len() - 1;
    assert(properties[last] == properties.last());
    if i < last {
        assert(properties[last].key@ != key);
        assert forall|j: int| 0 <= j < front.len() && j != i implies (#[trigger] front[j]).key@
            != key by {
            assert(properties[j].key@ != key);
        }
        lemma_keyed_once(front, key, i);
    } else {
        assert(keyed(front, key).len() == 0) by {
            lemma_keyed(front, key);
            if keyed(front, key).len() > 0 {
                let one = keyed(front, key)[0];
                let j = choose|j: int| 0 <= j < front.len() && front[j] == one;
                assert(properties[j].key@ != key);
            }
        }
        assert(keyed(properties, key) =~= seq![properties[i]]);
    }
}

/// A selector chooses the property that it names, without any doubt, and none where it
/// names none.
pub proof fn law_a_selector_chooses_what_it_names(
    properties: Seq<Property>,
    selector: SelectorView,
    field: Text,
    i: int,
)
    ensures
        names_property(properties, selector, i) ==> chosen(properties, selector) == Some(
            properties[i],
        ) && ambiguity(properties, selector, field) is None,
        names_nothing(properties, selector) ==> chosen(properties, selector) is None && ambiguity(
            properties,
            selector,
            field,
        ) is None,
{
    match selector {
        SelectorView::Id(id) => {
            if names_property(properties, selector, i) {
                lemma_first_with_id(properties, id, i);
            }
            if names_nothing(properties, selector) {
                lemma_none_with_id(properties, id);
            }
        },
        SelectorView::Key(key) => {
            if names_property(properties, selector, i) {
                lemma_keyed_once(properties, key, i);
            }
            if names_nothing(properties, selector) {
                lemma_keyed(properties, key);
                if keyed(properties, key).len() > 0 {
                    let one = keyed(properties, key)[0];
                    let j = choose|j: int| 0 <= j < properties.len() && properties[j] == one;
                    assert(properties[j].key@ != key);
                }
            }
        },
    }
}

proof fn lemma_keyed_twice(properties: Seq<Property>, key: Text, i: int, j: int)
    requires
        0 <= i < j < properties.len(),
        properties[i].key@ == key,
        properties[j].key@ == key,
    ensures
        keyed(properties, key).len() > 1,
    decreases properties.len(),
{
    let front = properties.drop_last();
    if j < front.len() {
        lemma_keyed_twice(front, key, i, j);
    } else {
        lemma_keyed(front, key);
        assert(front[i].key@ == key);
        assert(keyed(front, key).contains(front[i]));
    }
}

/// A key that two properties share is never resolved by chance: an object on which a
/// selector by key finds two is not read as a task at all.
pub proof fn law_a_shared_key_is_refused(
    object: Object,
    properties: PropertiesConfig,
    key: Text,
    i: int,
    j: int,
)
    requires
        0 <= i < j < object.properties@.len(),
        object.properties@[i].key@ == key,
        object.properties@[j].key@ == key,
        properties.scheduled@ == SelectorView::Key(key) || properties.deadline@
            == SelectorView::Key(key) || properties.done@ == SelectorView::Key(key),
    ensures
        task_problem(object, properties) is Some,
{
    lemma_keyed_twice(object.properties@, key, i, j);
}

/// A task has what its object holds under the properties that are configured: its plan from
/// the one for plans, its deadline from the one for deadlines, and whether it is done from
/// the one for that. What names nothing leaves the task without a date, and open.
pub proof fn law_a_task_is_read_from_its_properties(
    object: Object,
    properties: PropertiesConfig,
    i: int,
)
    ensures
        ({
            let p = object.properties@;
            let task = task_of(object, properties);
            &&& names_property(p, properties.scheduled@, i) ==> task.scheduled == (
            match p[i].value {
                PropertyValue::Date { date } => model::date_of(date@),
                _ => None,
            })
            &&& names_property(p, properties.deadline@, i) ==> task.deadline == (match p[i].value {
                PropertyValue::Date { date } => model::date_of(date@),
                _ => None,
            })
            &&& names_property(p, properties.done@, i) ==> (p[i].value
                matches PropertyValue::Checkbox { checkbox } ==> task.done == checkbox)
            &&& names_nothing(p, properties.scheduled@) ==> task.scheduled is None
            &&& names_nothing(p, properties.deadline@) ==> task.deadline is None
            &&& names_nothing(p, properties.done@) ==> !task.done
            &&& task.object_id == object.id@
        }),
{
    let p = object.properties@;
    law_a_selector_chooses_what_it_names(p, properties.scheduled@, "scheduled"@, i);
    law_a_selector_chooses_what_it_names(p, properties.deadline@, "deadline"@, i);
    law_a_selector_chooses_what_it_names(p, properties.done@, "done"@, i);
}

proof fn lemma_filled_names(names: Seq<Text>, name: Text)
    ensures
        filled_names(names).contains(name) <==> name.len() > 0 && exists|k: int|
            0 <= k < names.len() && text::trimmed(#[trigger] names[k]) == name,
    decreases names.len(),
{
    let all = filled_names(names);
    if names.len() > 0 {
        let front = names.drop_last();
        let before = filled_names(front);
        let last = names.len() - 1;
        lemma_filled_names(front, name);
        assert(names[last] == names.last());
        if all.contains(name) {
            let i = choose|i: int| 0 <= i < all.len() && all[i] == name;
            if i < before.len() {
                assert(before[i] == name);
                let k = choose|k: int|
                    0 <= k < front.len() && text::trimmed(#[trigger] front[k]) == name;
                assert(names[k] == front[k]);
            } else {
                assert(text::trimmed(names[last]) == name);
            }
        }
        if name.len() > 0 && exists|k: int|
            0 <= k < names.len() && text::trimmed(#[trigger] names[k]) == name {
            let k = choose|k: int|
                0 <= k < names.len() && text::trimmed(#[trigger] names[k]) == name;
            if k < last {
                assert(front[k] == names[k]);
                let i = choose|i: int| 0 <= i < before.len() && before[i] == name;
                assert(all[i] == name);
            } else {
                assert(all[all.len() - 1] == name);
            }
        }
    }
}

/// A task has the tags and the people that its object holds: each name of an option of the
/// property for tags, and each object of the property for assignees, without white space
/// around it and without blank ones.
pub proof fn law_a_task_has_the_tags_and_people_of_its_object(
    object: Object,
    properties: PropertiesConfig,
    i: int,
    name: Text,
)
    ensures
        ({
            let p = object.properties@;
            let task = task_of(object, properties);
            &&& (properties.tags matches Some(selector) && names_property(p, selector@, i)) ==> (
            p[i].value matches PropertyValue::MultiSelect { multi_select } ==> (
            task.tags.contains(name) <==> name.len() > 0 && exists|k: int|
                0 <= k < multi_select@.len() && text::trimmed((#[trigger] multi_select@[k]).name@)
                    == name))
            &&& properties.tags is None ==> task.tags.len() == 0
            &&& (properties.assignee matches Some(selector) && names_property(p, selector@, i))
                ==> (p[i].value matches PropertyValue::Objects { objects } ==> (
            task.assignees.contains(name) <==> name.len() > 0 && exists|k: int|
                0 <= k < objects@.len() && text::trimmed((#[trigger] objects@[k])@) == name))
            &&& properties.assignee is None ==> task.assignees.len() == 0
        }),
{
    let p = object.properties@;
    if properties.tags is Some {
        law_a_selector_chooses_what_it_names(p, properties.tags->0@, "tags"@, i);
        if names_property(p, properties.tags->0@, i) {
            if let PropertyValue::MultiSelect { multi_select } = p[i].value {
                let names = Seq::new(multi_select@.len(), |k: int| multi_select@[k].name@);
                lemma_filled_names(names, name);
                if exists|k: int|
                    0 <= k < multi_select@.len() && text::trimmed(
                        (#[trigger] multi_select@[k]).name@,
                    ) == name {
                    let k = choose|k: int|
                        0 <= k < multi_select@.len() && text::trimmed(
                            (#[trigger] multi_select@[k]).name@,
                        ) == name;
                    assert(names[k] == multi_select@[k].name@);
                }
            }
        }
    }
    if properties.assignee is Some {
        law_a_selector_chooses_what_it_names(p, properties.assignee->0@, "assignee"@, i);
        if names_property(p, properties.assignee->0@, i) {
            if let PropertyValue::Objects { objects } = p[i].value {
                let ids = text::texts(objects@);
                lemma_filled_names(ids, name);
                if exists|k: int|
                    0 <= k < objects@.len() && text::trimmed((#[trigger] objects@[k])@) == name {
                    let k = choose|k: int|
                        0 <= k < objects@.len() && text::trimmed((#[trigger] objects@[k])@)
                            == name;
                    assert(ids[k] == objects@[k]@);
                }
            }
        }
    }
}

/// What is archived is not served, and nothing else is left out.
pub proof fn law_only_what_is_archived_is_left_out(objects: Seq<Object>, object: Object)
    ensures
        live(objects).contains(object) <==> objects.contains(object) && !object.archived,
    decreases objects.len(),
{
    let all = live(objects);
    if objects.len() > 0 {
        let front = objects.drop_last();
        let before = live(front);
        let last = objects.len() - 1;
        law_only_what_is_archived_is_left_out(front, object);
        assert(objects[last] == objects.last());
        if all.contains(object) {
            let i = choose|i: int| 0 <= i < all.len() && all[i] == object;
            if i < before.len() {
                assert(before[i] == object);
                let k = choose|k: int| 0 <= k < front.len() && front[k] == object;
                assert(objects[k] == object);
            }
        }
        if objects.contains(object) && !object.archived {
            let k = choose|k: int| 0 <= k < objects.len() && objects[k] == object;
            if k < last {
                assert(front[k] == object);
                let i = choose|i: int| 0 <= i < before.len() && before[i] == object;
                assert(all[i] == object);
            } else {
                assert(all[all.len() - 1] == object);
            }
        }
    }
}

/// One person has one id, however a task addresses them: a membership that leads to a page
/// of their own counts as that page.
pub proof fn law_one_person_has_one_id(
    profiles: Seq<(Text, Text)>,
    a: Text,
    b: Text,
    page: Text,
)
    requires
        table::at(profiles, a) == Some(page),
        b == page && table::at(profiles, page) is None || table::at(profiles, b) == Some(page),
    ensures
        normalized(seq![a], profiles) == normalized(seq![b], profiles),
        normalized(seq![a], profiles) == seq![page],
{
    assert(normalized(seq![a], profiles) =~= seq![page]);
    assert(normalized(seq![b], profiles) =~= seq![page]);
}

proof fn lemma_seen(objects: Seq<Object>, selector: SelectorView, field: Text)
    ensures
        seen(objects, selector, field) matches Ok(found) ==> (found <==> exists|i: int|
            0 <= i < objects.len() && chosen(
                (#[trigger] objects[i]).properties@,
                selector,
            ) is Some),
    decreases objects.len(),
{
    if objects.len() > 0 {
        let rest = objects.drop_first();
        lemma_seen(rest, selector, field);
        if chosen(objects[0].properties@, selector) is None {
            if exists|i: int|
                0 <= i < rest.len() && chosen((#[trigger] rest[i]).properties@, selector) is Some {
                let i = choose|i: int|
                    0 <= i < rest.len() && chosen((#[trigger] rest[i]).properties@, selector)
                        is Some;
                assert(objects[i + 1] == rest[i]);
            }
            if exists|i: int|
                0 <= i < objects.len() && chosen((#[trigger] objects[i]).properties@, selector)
                    is Some {
                let i = choose|i: int|
                    0 <= i < objects.len() && chosen((#[trigger] objects[i]).properties@, selector)
                        is Some;
                assert(rest[i - 1] == objects[i]);
            }
        }
    }
}

/// A field counts as unresolved exactly where no task has the property that is configured
/// for it.
pub proof fn law_a_field_is_unresolved_where_no_task_has_it(
    objects: Seq<Object>,
    fields: Seq<Field>,
    properties: PropertiesConfig,
    field: Field,
)
    requires
        fields.contains(field),
    ensures
        unseen(objects, fields, properties) matches Ok(found) ==> (found.contains(field)
            <==> forall|i: int|
            0 <= i < objects.len() ==> chosen(
                (#[trigger] objects[i]).properties@,
                field.selector_in(properties)@,
            ) is None),
    decreases fields.len(),
{
    let front = fields.drop_last();
    let last = fields.last();
    lemma_seen(objects, last.selector_in(properties)@, last.written());
    lemma_unseen_sound(objects, front, properties, field);
    if let Ok(found) = unseen(objects, fields, properties) {
        let before = unseen(objects, front, properties)->Ok_0;
        if front.contains(field) {
            law_a_field_is_unresolved_where_no_task_has_it(objects, front, properties, field);
        }
        if before.contains(field) {
            let k = choose|k: int| 0 <= k < before.len() && before[k] == field;
            assert(found[k] == field);
        }
        if found.contains(field) {
            let k = choose|k: int| 0 <= k < found.len() && found[k] == field;
            if k < before.len() {
                assert(before[k] == field);
            }
        }
        if field == last {
            if seen(objects, last.selector_in(properties)@, last.written()) == Ok::<bool, Text>(
                false,
            ) {
                assert(found[found.len() - 1] == field);
            }
        } else {
            let k = choose|k: int| 0 <= k < fields.len() && fields[k] == field;
            assert(front[k] == field);
        }
    }
}

proof fn lemma_unseen_sound(
    objects: Seq<Object>,
    fields: Seq<Field>,
    properties: PropertiesConfig,
    field: Field,
)
    ensures
        unseen(objects, fields, properties) matches Ok(found) ==> (found.contains(field) ==> forall|
            i: int,
        |
            0 <= i < objects.len() ==> chosen(
                (#[trigger] objects[i]).properties@,
                field.selector_in(properties)@,
            ) is None),
    decreases fields.len(),
{
    if fields.len() > 0 {
        let last = fields.last();
        lemma_unseen_sound(objects, fields.drop_last(), properties, field);
        lemma_seen(objects, last.selector_in(properties)@, last.written());
        if let Ok(found) = unseen(objects, fields, properties) {
            let before = unseen(objects, fields.drop_last(), properties)->Ok_0;
            if found.contains(field) {
                let k = choose|k: int| 0 <= k < found.len() && found[k] == field;
                if k < before.len() {
                    assert(before[k] == field);
                }
            }
        }
    }
}

/// A patch of a task is stored field by field: the state under `done`, the plan under
/// `scheduled`, the deadline under `due_date`, each exactly where the patch changes it, and
/// nothing under another key.
pub proof fn law_a_task_patch_is_stored_field_by_field(patch: PatchView)
    ensures
        forall|checkbox: bool|
            #[trigger] patch_settings(patch).contains(
                SettingView::Checkbox { key: "done"@, checkbox },
            ) <==> patch.done == Some(checkbox),
        forall|date: Option<Text>|
            #[trigger] patch_settings(patch).contains(
                SettingView::Date { key: "scheduled"@, date },
            ) <==> patch.scheduled == Some(date),
        forall|date: Option<Text>|
            #[trigger] patch_settings(patch).contains(
                SettingView::Date { key: "due_date"@, date },
            ) <==> patch.deadline == Some(date),
        forall|i: int|
            0 <= i < patch_settings(patch).len() ==> match #[trigger] patch_settings(patch)[i] {
                SettingView::Checkbox { key, .. } => key == "done"@,
                SettingView::Date { key, .. } => key == "scheduled"@ || key == "due_date"@,
                _ => false,
            },
{
    reveal_strlit("scheduled");
    reveal_strlit("due_date");
    assert("scheduled"@.len() == 9 && "due_date"@.len() == 8);
    let all = patch_settings(patch);
    if patch.done is Some {
        assert(all[0] == SettingView::Checkbox { key: "done"@, checkbox: patch.done->0 });
    }
    let done: int = if patch.done is Some {
        1
    } else {
        0
    };
    if patch.scheduled is Some {
        assert(all[done] == SettingView::Date { key: "scheduled"@, date: patch.scheduled->0 });
    }
    if patch.deadline is Some {
        assert(all[all.len() - 1] == SettingView::Date {
            key: "due_date"@,
            date: patch.deadline->0,
        });
    }
}

proof fn lemma_linked(profiles: Seq<(Text, Text)>, links: Seq<Text>, person: Text, link: Text)
    ensures
        table::at(linked(profiles, links, person), link) == (if links.contains(link)
            && text::starts_with(link, accounts::PARTICIPANT_PREFIX@) {
            Some(person)
        } else {
            table::at(profiles, link)
        }),
    decreases links.len(),
{
    if links.len() > 0 {
        let front = links.drop_last();
        lemma_linked(profiles, front, person, link);
        let last = links.last();
        assert(links[links.len() - 1] == last);
        if links.contains(link) && link != last {
            let m = choose|m: int| 0 <= m < links.len() && links[m] == link;
            assert(front[m] == link);
        }
        if front.contains(link) {
            let m = choose|m: int| 0 <= m < front.len() && front[m] == link;
            assert(links[m] == link);
        }
        if text::starts_with(last, accounts::PARTICIPANT_PREFIX@) {
            table::lemma_at_put(linked(profiles, front, person), last, person, link);
        }
    }
}

/// Everyone with an object of their own is known by it: a name stands under the id of every
/// object that is not archived, that of the object itself where no other has its id. A
/// membership that one of them links to leads to one of those who link to it.
pub proof fn law_everyone_with_an_object_is_known(objects: Seq<Object>, i: int, link: Text)
    ensures
        0 <= i < objects.len() && !objects[i].archived ==> table::at(
            with_profiles(objects).names,
            objects[i].id@,
        ) is Some,
        0 <= i < objects.len() && !objects[i].archived && (forall|k: int|
            i < k < objects.len() ==> (#[trigger] objects[k]).id@ != objects[i].id@) ==> table::at(
            with_profiles(objects).names,
            objects[i].id@,
        ) == Some(accounts::person_name(objects[i])),
        0 <= i < objects.len() && leads_to(objects[i], link) ==> table::at(
            with_profiles(objects).profiles,
            link,
        ) is Some,
        table::at(with_profiles(objects).profiles, link) matches Some(person) ==> exists|k: int|
            0 <= k < objects.len() && leads_to(#[trigger] objects[k], link) && objects[k].id@
                == person,
        with_profiles(objects).holders.len() == 0,
    decreases objects.len(),
{
    if objects.len() > 0 {
        let front = objects.drop_last();
        let before = with_profiles(front);
        let one = objects.last();
        assert(objects[objects.len() - 1] == one);
        law_everyone_with_an_object_is_known(front, i, link);
        if 0 <= i < front.len() {
            assert(front[i] == objects[i]);
            if forall|k: int|
                i < k < objects.len() ==> (#[trigger] objects[k]).id@ != objects[i].id@ {
                assert forall|k: int| i < k < front.len() implies (#[trigger] front[k]).id@
                    != front[i].id@ by {
                    assert(front[k] == objects[k]);
                }
            }
        }
        if !one.archived {
            table::lemma_at_put(
                before.names,
                one.id@,
                accounts::person_name(one),
                objects[i].id@,
            );
            lemma_linked(
                before.profiles,
                object::links_in(one.properties@, "links"@),
                one.id@,
                link,
            );
        }
        if let Some(person) = table::at(with_profiles(objects).profiles, link) {
            if leads_to(one, link) {
                assert(objects[objects.len() - 1].id@ == person);
            } else {
                let k = choose|k: int|
                    0 <= k < front.len() && leads_to(#[trigger] front[k], link) && front[k].id@
                        == person;
                assert(objects[k] == front[k]);
            }
        }
    }
}

/// Whether an object stands for the person behind a membership: it is not archived and
/// links to it.
pub open spec fn leads_to(object: Object, link: Text) -> bool {
    &&& !object.archived
    &&& object::links_in(object.properties@, "links"@).contains(link)
    &&& text::starts_with(link, accounts::PARTICIPANT_PREFIX@)
}

/// Every active member is taken in: one behind an object of their own may sign in under it,
/// and one without is known by their membership, under the name that the space has for them.
/// The names and links of the objects stay as they are.
pub proof fn law_every_active_member_is_taken_in(
    directory: DirectoryView,
    members: Seq<Member>,
    i: int,
)
    ensures
        with_members(directory, members).profiles == directory.profiles,
        0 <= i < members.len() && members[i].active ==> match table::at(
            directory.profiles,
            members[i].id@,
        ) {
            Some(profile) => with_members(directory, members).holders.contains(profile),
            None => table::at(with_members(directory, members).names, members[i].id@) is Some,
        },
        0 <= i < members.len() && members[i].active && table::at(
            directory.profiles,
            members[i].id@,
        ) is None && (forall|k: int|
            i < k < members.len() ==> (#[trigger] members[k]).id@ != members[i].id@) ==> table::at(
            with_members(directory, members).names,
            members[i].id@,
        ) == Some(members[i].name@),
        0 <= i < with_members(directory, members).holders.len() ==> directory.holders.contains(
            with_members(directory, members).holders[i],
        ) || exists|k: int|
            0 <= k < members.len() && (#[trigger] members[k]).active && table::at(
                directory.profiles,
                members[k].id@,
            ) == Some(with_members(directory, members).holders[i]),
    decreases members.len(),
{
    if members.len() > 0 {
        let front = members.drop_last();
        let before = with_members(directory, front);
        let r = with_members(directory, members);
        let one = members.last();
        assert(members[members.len() - 1] == one);
        law_every_active_member_is_taken_in(directory, front, i);
        if 0 <= i < front.len() {
            assert(front[i] == members[i]);
            if forall|k: int|
                i < k < members.len() ==> (#[trigger] members[k]).id@ != members[i].id@ {
                assert forall|k: int| i < k < front.len() implies (#[trigger] front[k]).id@
                    != front[i].id@ by {
                    assert(front[k] == members[k]);
                }
            }
            if let Some(profile) = table::at(directory.profiles, members[i].id@) {
                if before.holders.contains(profile) {
                    let m = choose|m: int|
                        0 <= m < before.holders.len() && before.holders[m] == profile;
                    assert(r.holders[m] == profile);
                }
            }
        }
        if one.active {
            match table::at(before.profiles, one.id@) {
                Some(profile) => {
                    if !before.holders.contains(profile) {
                        assert(r.holders[before.holders.len() as int] == profile);
                    }
                },
                None => {
                    table::lemma_at_put(before.names, one.id@, one.name@, members[i].id@);
                },
            }
        }
        if 0 <= i < r.holders.len() {
            if i < before.holders.len() {
                assert(r.holders[i] == before.holders[i]);
                if !directory.holders.contains(before.holders[i]) {
                    let k = choose|k: int|
                        0 <= k < front.len() && (#[trigger] front[k]).active && table::at(
                            directory.profiles,
                            front[k].id@,
                        ) == Some(before.holders[i]);
                    assert(members[k] == front[k]);
                }
            }
        }
    }
}

/// A task is called by its name; one without a name by the beginning of its text, and only
/// one without either is unnamed.
pub proof fn law_what_a_task_is_called(name: Option<String>, snippet: Option<String>)
    ensures
        says_something(name) ==> task_name(name, snippet) == text::trimmed(name->0@),
        !says_something(name) && says_something(snippet) ==> task_name(name, snippet)
            == text::trimmed(snippet->0@),
        !says_something(name) && !says_something(snippet) ==> task_name(name, snippet)
            == "(unnamed)"@,
{
}

/// Whether there is a text that is more than white space.
pub open spec fn says_something(s: Option<String>) -> bool {
    s matches Some(s) && text::trimmed(s@).len() > 0
}

/// The tasks that are read are those of the objects, each with the people that its object
/// names: under their own page where the directory knows it, and as they stand otherwise.
pub proof fn law_a_listed_task_has_the_people_of_its_object(
    object: Object,
    properties: PropertiesConfig,
    directory: DirectoryView,
    i: int,
)
    ensures
        ({
            let plain = task_of(object, properties);
            let listed = listed_task(object, properties, Some(directory));
            &&& listed_task(object, properties, None) == plain
            &&& listed == (TaskView { assignees: listed.assignees, ..plain })
            &&& listed.assignees.len() == plain.assignees.len()
            &&& 0 <= i < plain.assignees.len() ==> listed.assignees[i] == (match table::at(
                directory.profiles,
                plain.assignees[i],
            ) {
                Some(page) => page,
                None => plain.assignees[i],
            })
        }),
{
}

} // verus!
