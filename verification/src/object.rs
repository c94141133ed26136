//! An object of the space, as far as it is read.
use vstd::prelude::*;

use crate::model;
use crate::model::AnytypeDate;
use crate::text;
use crate::text::Text;

verus! {

/// The format of a property's values.
#[derive(Debug, Clone, Copy, PartialEq, Eq, Structural)]
pub enum Format {
    Text,
    Number,
    Select,
    MultiSelect,
    Date,
    Files,
    Checkbox,
    Url,
    Email,
    Phone,
    Objects,
}

impl Format {
    /// A format as it is written.
    pub open spec fn written(self) -> Text {
        match self {
            Format::Text => "text"@,
            Format::Number => "number"@,
            Format::Select => "select"@,
            Format::MultiSelect => "multi_select"@,
            Format::Date => "date"@,
            Format::Files => "files"@,
            Format::Checkbox => "checkbox"@,
            Format::Url => "url"@,
            Format::Email => "email"@,
            Format::Phone => "phone"@,
            Format::Objects => "objects"@,
        }
    }

    pub fn text(self) -> (r: &'static str)
        ensures
            r@ == self.written(),
    {
        match self {
            Format::Text => "text",
            Format::Number => "number",
            Format::Select => "select",
            Format::MultiSelect => "multi_select",
            Format::Date => "date",
            Format::Files => "files",
            Format::Checkbox => "checkbox",
            Format::Url => "url",
            Format::Email => "email",
            Format::Phone => "phone",
            Format::Objects => "objects",
        }
    }

    /// A format by its name.
    pub open spec fn named(self) -> Text {
        match self {
            Format::Text => "Text"@,
            Format::Number => "Number"@,
            Format::Select => "Select"@,
            Format::MultiSelect => "MultiSelect"@,
            Format::Date => "Date"@,
            Format::Files => "Files"@,
            Format::Checkbox => "Checkbox"@,
            Format::Url => "Url"@,
            Format::Email => "Email"@,
            Format::Phone => "Phone"@,
            Format::Objects => "Objects"@,
        }
    }

    pub fn name(self) -> (r: &'static str)
        ensures
            r@ == self.named(),
    {
        match self {
            Format::Text => "Text",
            Format::Number => "Number",
            Format::Select => "Select",
            Format::MultiSelect => "MultiSelect",
            Format::Date => "Date",
            Format::Files => "Files",
            Format::Checkbox => "Checkbox",
            Format::Url => "Url",
            Format::Email => "Email",
            Format::Phone => "Phone",
            Format::Objects => "Objects",
        }
    }
}

/// An option of a select property.
#[derive(Debug, Clone, PartialEq, Eq)]
pub struct Tag {
    pub id: String,
    pub name: String,
}

/// The value of a property. A number is held by its text.
#[derive(Debug, Clone, PartialEq, Eq)]
pub enum PropertyValue {
    Text { text: String },
    Number { number: String },
    Select { select: Tag },
    MultiSelect { multi_select: Vec<Tag> },
    Date { date: String },
    Files { files: Vec<String> },
    Checkbox { checkbox: bool },
    Url { url: String },
    Email { email: String },
    Phone { phone: String },
    Objects { objects: Vec<String> },
}

impl PropertyValue {
    /// The format of a value.
    pub open spec fn kind(self) -> Format {
        match self {
            PropertyValue::Text { .. } => Format::Text,
            PropertyValue::Number { .. } => Format::Number,
            PropertyValue::Select { .. } => Format::Select,
            PropertyValue::MultiSelect { .. } => Format::MultiSelect,
            PropertyValue::Date { .. } => Format::Date,
            PropertyValue::Files { .. } => Format::Files,
            PropertyValue::Checkbox { .. } => Format::Checkbox,
            PropertyValue::Url { .. } => Format::Url,
            PropertyValue::Email { .. } => Format::Email,
            PropertyValue::Phone { .. } => Format::Phone,
            PropertyValue::Objects { .. } => Format::Objects,
        }
    }

    pub fn format(&self) -> (r: Format)
        ensures
            r == self.kind(),
    {
        match self {
            PropertyValue::Text { .. } => Format::Text,
            PropertyValue::Number { .. } => Format::Number,
            PropertyValue::Select { .. } => Format::Select,
            PropertyValue::MultiSelect { .. } => Format::MultiSelect,
            PropertyValue::Date { .. } => Format::Date,
            PropertyValue::Files { .. } => Format::Files,
            PropertyValue::Checkbox { .. } => Format::Checkbox,
            PropertyValue::Url { .. } => Format::Url,
            PropertyValue::Email { .. } => Format::Email,
            PropertyValue::Phone { .. } => Format::Phone,
            PropertyValue::Objects { .. } => Format::Objects,
        }
    }
}

/// A picture of an object.
#[derive(Debug, Clone, PartialEq, Eq)]
pub enum Icon {
    Emoji { emoji: String },
    File { file: String },
    Named { name: String, color: String },
}

#[derive(Debug, Clone, PartialEq, Eq)]
pub struct Property {
    pub id: String,
    pub key: String,
    pub name: String,
    pub value: PropertyValue,
}

#[derive(Debug, Clone, PartialEq, Eq)]
pub struct Object {
    pub id: String,
    pub name: Option<String>,
    /// The beginning of the object's text.
    pub snippet: Option<String>,
    pub archived: bool,
    pub link: String,
    pub icon: Option<Icon>,
    pub properties: Vec<Property>,
}

/// The value of the first property with a key.
pub open spec fn value_of(properties: Seq<Property>, key: Text) -> Option<PropertyValue>
    decreases properties.len(),
{
    if properties.len() == 0 {
        None
    } else if properties[0].key@ == key {
        Some(properties[0].value)
    } else {
        value_of(properties.drop_first(), key)
    }
}

impl Object {
    /// The value of the property with a key.
    pub fn get_property<'a>(&'a self, key: &str) -> (r: Option<&'a PropertyValue>)
        ensures
            match r {
                Some(value) => value_of(self.properties@, key@) == Some(*value),
                None => value_of(self.properties@, key@) is None,
            },
    {
        let ghost all = self.properties@;
        let mut i: usize = 0;
        assert(all.skip(0) == all);
        while i < self.properties.len()
            invariant
                i <= all.len(),
                all == self.properties@,
                value_of(all, key@) == value_of(all.skip(i as int), key@),
            decreases all.len() - i,
        {
            assert(all.skip(i as int).drop_first() == all.skip(i + 1));
            if text::same(self.properties[i].key.as_str(), key) {
                return Some(&self.properties[i].value);
            }
            i += 1;
        }
        None
    }
}

/// The text under a key, unless it is blank.
pub open spec fn text_in(properties: Seq<Property>, key: Text) -> Option<Text> {
    match value_of(properties, key) {
        Some(PropertyValue::Text { text }) => if text::trimmed(text@).len() > 0 {
            Some(text@)
        } else {
            None
        },
        _ => None,
    }
}

pub fn text(object: &Object, key: &str) -> (r: Option<String>)
    ensures
        text::text_of(r) == text_in(object.properties@, key@),
{
    match object.get_property(key) {
        Some(PropertyValue::Text { text }) => if text::trim(text.as_str()).is_empty() {
            None
        } else {
            Some(text.clone())
        },
        _ => None,
    }
}

/// The date under a key, where it can be read.
pub open spec fn date_in(properties: Seq<Property>, key: Text) -> Option<model::DateView> {
    match value_of(properties, key) {
        Some(PropertyValue::Date { date }) => model::date_of(date@),
        _ => None,
    }
}

pub fn date(object: &Object, key: &str) -> (r: Option<AnytypeDate>)
    ensures
        model::date_view(r) == date_in(object.properties@, key@),
{
    match object.get_property(key) {
        Some(PropertyValue::Date { date }) => AnytypeDate::parse(date.as_str()),
        _ => None,
    }
}

/// The ids of the options chosen under a key.
pub open spec fn ids_in(properties: Seq<Property>, key: Text) -> Seq<Text> {
    match value_of(properties, key) {
        Some(PropertyValue::MultiSelect { multi_select }) => Seq::new(
            multi_select@.len(),
            |i: int| multi_select@[i].id@,
        ),
        _ => Seq::empty(),
    }
}

pub fn tag_ids(object: &Object, key: &str) -> (r: Vec<String>)
    ensures
        text::texts(r@) == ids_in(object.properties@, key@),
{
    let mut r: Vec<String> = Vec::new();
    assert(text::texts(r@) == Seq::<Text>::empty());
    if let Some(PropertyValue::MultiSelect { multi_select }) = object.get_property(key) {
        let mut i: usize = 0;
        while i < multi_select.len()
            invariant
                i <= multi_select@.len(),
                r@.len() == i,
                forall|j: int| 0 <= j < i ==> (#[trigger] r@[j])@ == multi_select@[j].id@,
            decreases multi_select@.len() - i,
        {
            r.push(multi_select[i].id.clone());
            i += 1;
        }
    }
    assert(text::texts(r@) == ids_in(object.properties@, key@));
    r
}

/// The trimmed names of the options chosen under a key.
pub open spec fn names_in(properties: Seq<Property>, key: Text) -> Seq<Text> {
    match value_of(properties, key) {
        Some(PropertyValue::MultiSelect { multi_select }) => Seq::new(
            multi_select@.len(),
            |i: int| text::trimmed(multi_select@[i].name@),
        ),
        _ => Seq::empty(),
    }
}

pub fn tag_names(object: &Object, key: &str) -> (r: Vec<String>)
    ensures
        text::texts(r@) == names_in(object.properties@, key@),
{
    let mut r: Vec<String> = Vec::new();
    assert(text::texts(r@) == Seq::<Text>::empty());
    if let Some(PropertyValue::MultiSelect { multi_select }) = object.get_property(key) {
        let mut i: usize = 0;
        while i < multi_select.len()
            invariant
                i <= multi_select@.len(),
                r@.len() == i,
                forall|j: int|
                    0 <= j < i ==> (#[trigger] r@[j])@ == text::trimmed(multi_select@[j].name@),
            decreases multi_select@.len() - i,
        {
            r.push(text::trim(multi_select[i].name.as_str()).to_owned());
            i += 1;
        }
    }
    assert(text::texts(r@) == names_in(object.properties@, key@));
    r
}

/// The objects that are linked under a key.
pub open spec fn links_in(properties: Seq<Property>, key: Text) -> Seq<Text> {
    match value_of(properties, key) {
        Some(PropertyValue::Objects { objects }) => text::texts(objects@),
        _ => Seq::empty(),
    }
}

pub fn links(object: &Object, key: &str) -> (r: Vec<String>)
    ensures
        text::texts(r@) == links_in(object.properties@, key@),
{
    match object.get_property(key) {
        Some(PropertyValue::Objects { objects }) => text::copy_list(objects),
        _ => {
            let r: Vec<String> = Vec::new();
            assert(text::texts(r@) == Seq::<Text>::empty());
            r
        },
    }
}

/// A name, or what stands for one that is blank.
pub open spec fn shown_name(name: Option<Text>) -> Text {
    match name {
        Some(name) => if text::trimmed(name).len() > 0 {
            name
        } else {
            "(unnamed)"@
        },
        None => "(unnamed)"@,
    }
}

pub fn name_shown(name: &Option<String>) -> (r: String)
    ensures
        r@ == shown_name(text::text_of(*name)),
{
    match name {
        Some(name) => if text::trim(name.as_str()).is_empty() {
            "(unnamed)".to_owned()
        } else {
            name.clone()
        },
        None => "(unnamed)".to_owned(),
    }
}

/// One property of an object as it is written.
#[derive(Debug, Clone, PartialEq, Eq)]
pub enum Setting {
    /// A date, or none.
    Date { key: String, date: Option<String> },
    Text { key: String, text: String },
    /// Options of a select property by their names.
    Options { key: String, names: Vec<String> },
    Objects { key: String, objects: Vec<String> },
    Checkbox { key: String, checkbox: bool },
    /// An option of a select property by its id.
    Select { key: String, id: String },
    /// Options of a select property by their ids.
    MultiSelect { key: String, ids: Vec<String> },
}

#[verifier::ext_equal]
pub enum SettingView {
    Date { key: Text, date: Option<Text> },
    Text { key: Text, text: Text },
    Options { key: Text, names: Seq<Text> },
    Objects { key: Text, objects: Seq<Text> },
    Checkbox { key: Text, checkbox: bool },
    Select { key: Text, id: Text },
    MultiSelect { key: Text, ids: Seq<Text> },
}

impl View for Setting {
    type V = SettingView;

    open spec fn view(&self) -> SettingView {
        match self {
            Setting::Date { key, date } => SettingView::Date {
                key: key@,
                date: text::text_of(*date),
            },
            Setting::Text { key, text } => SettingView::Text { key: key@, text: text@ },
            Setting::Options { key, names } => SettingView::Options {
                key: key@,
                names: text::texts(names@),
            },
            Setting::Objects { key, objects } => SettingView::Objects {
                key: key@,
                objects: text::texts(objects@),
            },
            Setting::Checkbox { key, checkbox } => SettingView::Checkbox {
                key: key@,
                checkbox: *checkbox,
            },
            Setting::Select { key, id } => SettingView::Select { key: key@, id: id@ },
            Setting::MultiSelect { key, ids } => SettingView::MultiSelect {
                key: key@,
                ids: text::texts(ids@),
            },
        }
    }
}

pub open spec fn settings(v: Seq<Setting>) -> Seq<SettingView> {
    Seq::new(v.len(), |i: int| v[i]@)
}

/// Puts a setting behind the others.
pub fn put_setting(list: &mut Vec<Setting>, setting: Setting)
    ensures
        settings(final(list)@) == settings(old(list)@).push(setting@),
{
    let ghost before = list@;
    list.push(setting);
    assert(settings(list@) == settings(before).push(setting@));
}

/// Whether a property with a key holds a value, and none before it has the key.
pub open spec fn first_holds(
    properties: Seq<Property>,
    key: Text,
    i: int,
    value: PropertyValue,
) -> bool {
    &&& 0 <= i < properties.len()
    &&& properties[i].key@ == key && properties[i].value == value
    &&& forall|j: int| 0 <= j < i ==> (#[trigger] properties[j]).key@ != key
}

/// A value is read from the first property that has the key, whatever else the object holds,
/// and there is none exactly where no property has it.
pub proof fn law_a_value_is_that_of_its_key(properties: Seq<Property>, key: Text)
    ensures
        value_of(properties, key) matches Some(value) ==> exists|i: int| #[trigger]
            first_holds(properties, key, i, value),
        value_of(properties, key) is None <==> forall|j: int|
            0 <= j < properties.len() ==> (#[trigger] properties[j]).key@ != key,
    decreases properties.len(),
{
    if properties.len() > 0 {
        if properties[0].key@ == key {
            assert(first_holds(properties, key, 0, properties[0].value));
        } else {
            let rest = properties.drop_first();
            law_a_value_is_that_of_its_key(rest, key);
            match value_of(rest, key) {
                Some(value) => {
                    let i = choose|i: int| #[trigger] first_holds(rest, key, i, value);
                    assert forall|j: int| 0 <= j < i + 1 implies (#[trigger] properties[j]).key@
                        != key by {
                        if j > 0 {
                            assert(rest[j - 1] == properties[j]);
                        }
                    }
                    assert(properties[i + 1] == rest[i]);
                    assert(first_holds(properties, key, i + 1, value));
                },
                None => {
                    assert forall|j: int| 0 <= j < properties.len() implies (
                    #[trigger] properties[j]).key@ != key by {
                        if j > 0 {
                            assert(rest[j - 1] == properties[j]);
                        }
                    }
                },
            }
        }
    }
}

/// What is read under a key is what the property holds in its own format: a text as it is
/// written, the date that it names, the ids and the names of all that was chosen, and all
/// that is linked. A property of another format gives nothing.
pub proof fn law_a_property_is_read_in_its_format(
    properties: Seq<Property>,
    key: Text,
    value: PropertyValue,
    i: int,
)
    requires
        value_of(properties, key) == Some(value),
    ensures
        value matches PropertyValue::Text { text } ==> (text_in(properties, key) == Some(text@)
            <==> text::trimmed(text@).len() > 0),
        value !is Text ==> text_in(properties, key) is None,
        value matches PropertyValue::Date { date } ==> date_in(properties, key) == model::date_of(
            date@,
        ),
        value !is Date ==> date_in(properties, key) is None,
        value matches PropertyValue::MultiSelect { multi_select } ==> names_in(
            properties,
            key,
        ).len() == multi_select@.len() && ids_in(properties, key).len() == multi_select@.len() && (
        0 <= i < multi_select@.len() ==> names_in(properties, key)[i] == text::trimmed(
            multi_select@[i].name@,
        ) && ids_in(properties, key)[i] == multi_select@[i].id@),
        value !is MultiSelect ==> names_in(properties, key).len() == 0,
        value matches PropertyValue::Objects { objects } ==> links_in(properties, key)
            == text::texts(objects@),
        value !is Objects ==> links_in(properties, key).len() == 0,
{
}

} // verus!
