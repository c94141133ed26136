//! Events between the space's objects and the calendar.
use vstd::prelude::*;

use crate::event_changes::{EventPatch, EventPatchView};
use crate::events;
use crate::events::{Event, EventView};
use crate::model;
use crate::model::{AnytypeDate, DateView};
use crate::object;
use crate::object::{Object, Setting, SettingView, Tag};
use crate::text;
use crate::text::Text;
use crate::time::Instant;

verus! {

/// A text without a prefix, however often it stands there.
pub open spec fn without_prefixes(s: Text, prefix: Text) -> Text
    decreases s.len(),
{
    if prefix.len() == 0 {
        s
    } else {
        match text::after_prefix(s, prefix) {
            Some(rest) => if rest.len() < s.len() {
                without_prefixes(rest, prefix)
            } else {
                s
            },
            None => s,
        }
    }
}

fn strip_prefixes<'a>(s: &'a str, prefix: &str) -> (r: &'a str)
    requires
        prefix@.len() > 0,
    ensures
        r@ == without_prefixes(s@, prefix@),
    decreases s@.len(),
{
    match text::strip_prefix(s, prefix) {
        Some(rest) => {
            assert(rest@.len() < s@.len());
            strip_prefixes(rest, prefix)
        },
        None => s,
    }
}

/// The dates of a text with one on each line; lines that are none are skipped.
pub open spec fn dates_on(lines: Seq<Text>) -> Seq<DateView>
    decreases lines.len(),
{
    if lines.len() == 0 {
        Seq::empty()
    } else {
        let before = dates_on(lines.drop_last());
        match model::date_of(lines.last()) {
            Some(date) => before.push(date),
            None => before,
        }
    }
}

pub open spec fn excluded_on(value: Option<Text>) -> Seq<DateView> {
    match value {
        Some(value) => dates_on(text::split(value, '\n')),
        None => Seq::empty(),
    }
}

fn read_dates(value: &Option<String>) -> (r: Vec<AnytypeDate>)
    ensures
        events::dates(r@) == excluded_on(text::text_of(*value)),
{
    let mut r: Vec<AnytypeDate> = Vec::new();
    assert(events::dates(r@) == Seq::<DateView>::empty());
    if let Some(value) = value {
        let lines = text::split_at_each(value.as_str(), '\n');
        let ghost all = text::texts(lines@);
        let mut i: usize = 0;
        while i < lines.len()
            invariant
                i <= lines@.len(),
                all == text::texts(lines@),
                events::dates(r@) == dates_on(all.take(i as int)),
            decreases lines@.len() - i,
        {
            assert(all.take(i + 1).drop_last() == all.take(i as int));
            assert(all.take(i + 1).last() == lines@[i as int]@);
            let ghost before = r@;
            if let Some(date) = AnytypeDate::parse(lines[i].as_str()) {
                r.push(date);
                assert(events::dates(r@) == events::dates(before).push(date@));
            }
            i += 1;
        }
        assert(all.take(all.len() as int) == all);
    }
    r
}

/// The event that an object stands for.
pub open spec fn event_of(object: Object, last_modified: Option<Instant>) -> EventView {
    let p = object.properties@;
    EventView {
        object_id: object.id@,
        name: object::shown_name(text::text_of(object.name)),
        start: object::date_in(p, "start_date"@),
        end: object::date_in(p, "end_date"@),
        location: object::text_in(p, "address"@),
        tags: object::names_in(p, "tag"@),
        reminder_names: object::names_in(p, "reminder_lead"@),
        ical_uid: object::text_in(p, "ical_uid"@),
        object_url: Some(object.link@),
        last_modified,
        rrule: match object::text_in(p, "rrule"@) {
            Some(rule) => Some(without_prefixes(text::trimmed(rule), "RRULE:"@)),
            None => None,
        },
        exdates: excluded_on(object::text_in(p, "exdate"@)),
        series: if object::links_in(p, "series"@).len() > 0 {
            Some(object::links_in(p, "series"@)[0])
        } else {
            None
        },
        occurrence: object::date_in(p, "occurrence"@),
        deadline: object::date_in(p, "deadline"@),
    }
}

/// The first of some links.
pub fn first_link(links: &Vec<String>) -> (r: Option<String>)
    ensures
        text::text_of(r) == (if links@.len() > 0 {
            Some(links@[0]@)
        } else {
            None
        }),
{
    if links.len() > 0 {
        Some(links[0].clone())
    } else {
        None
    }
}

/// The moment of the date under a key.
pub open spec fn moment_under(date: Option<DateView>) -> Option<(int, int)> {
    match date {
        Some(date) => Some((date.second, date.nano)),
        None => None,
    }
}

/// When an object was last changed.
pub fn modified(object: &Object) -> (r: Option<Instant>)
    ensures
        match r {
            Some(at) => moment_under(
                object::date_in(object.properties@, "last_modified_date"@),
            ) == Some((at.second(), at.nano())),
            None => object::date_in(object.properties@, "last_modified_date"@) is None,
        },
{
    match object::date(object, "last_modified_date") {
        Some(date) => Some(date.parsed),
        None => None,
    }
}

pub fn to_event(object: &Object) -> (r: Event)
    ensures
        r@ == event_of(*object, r.last_modified),
        match r.last_modified {
            Some(at) => moment_under(
                object::date_in(object.properties@, "last_modified_date"@),
            ) == Some((at.second(), at.nano())),
            None => object::date_in(object.properties@, "last_modified_date"@) is None,
        },
{
    proof {
        reveal_strlit("RRULE:");
    }
    let rrule = match object::text(object, "rrule") {
        Some(rule) => Some(strip_prefixes(text::trim(rule.as_str()), "RRULE:").to_owned()),
        None => None,
    };
    let links = object::links(object, "series");
    Event {
        object_id: object.id.clone(),
        name: object::name_shown(&object.name),
        start: object::date(object, "start_date"),
        end: object::date(object, "end_date"),
        location: object::text(object, "address"),
        tags: object::tag_names(object, "tag"),
        reminder_names: object::tag_names(object, "reminder_lead"),
        ical_uid: object::text(object, "ical_uid"),
        object_url: Some(object.link.clone()),
        last_modified: modified(object),
        rrule,
        exdates: read_dates(&object::text(object, "exdate")),
        series: first_link(&links),
        occurrence: object::date(object, "occurrence"),
        deadline: object::date(object, "deadline"),
    }
}

/// A list with a date setting behind it, where there is a change.
pub open spec fn with_date(list: Seq<SettingView>, key: Text, change: Option<Option<Text>>) -> Seq<
    SettingView,
> {
    match change {
        Some(date) => list.push(SettingView::Date { key, date }),
        None => list,
    }
}

/// A list with a text setting behind it, where there is a change; none clears it.
pub open spec fn with_text(list: Seq<SettingView>, key: Text, change: Option<Option<Text>>) -> Seq<
    SettingView,
> {
    match change {
        Some(Some(text)) => list.push(SettingView::Text { key, text }),
        Some(None) => list.push(SettingView::Text { key, text: Seq::empty() }),
        None => list,
    }
}

/// A list with chosen options behind it, where there is a change.
pub open spec fn with_options(list: Seq<SettingView>, key: Text, change: Option<Seq<Text>>) -> Seq<
    SettingView,
> {
    match change {
        Some(names) => list.push(SettingView::Options { key, names }),
        None => list,
    }
}

pub fn put_date(list: &mut Vec<Setting>, key: &str, change: &Option<Option<String>>)
    ensures
        object::settings(final(list)@) == with_date(
            object::settings(old(list)@),
            key@,
            crate::writeback::text_change(*change),
        ),
{
    if let Some(date) = change {
        object::put_setting(
            list,
            Setting::Date { key: key.to_owned(), date: text::copy_text(date) },
        );
    }
}

pub fn put_text(list: &mut Vec<Setting>, key: &str, change: &Option<Option<String>>)
    ensures
        object::settings(final(list)@) == with_text(
            object::settings(old(list)@),
            key@,
            crate::writeback::text_change(*change),
        ),
{
    if let Some(value) = change {
        let text = match value {
            Some(text) => text.clone(),
            None => String::new(),
        };
        object::put_setting(list, Setting::Text { key: key.to_owned(), text });
    }
}

pub fn put_options(list: &mut Vec<Setting>, key: &str, change: &Option<Vec<String>>)
    ensures
        object::settings(final(list)@) == with_options(
            object::settings(old(list)@),
            key@,
            crate::writeback::list_change(*change),
        ),
{
    if let Some(names) = change {
        object::put_setting(
            list,
            Setting::Options { key: key.to_owned(), names: text::copy_list(names) },
        );
    }
}

/// What a patch writes.
pub open spec fn event_settings(patch: EventPatchView) -> Seq<SettingView> {
    let dates = with_date(
        with_date(with_date(Seq::empty(), "start_date"@, patch.start), "end_date"@, patch.end),
        "deadline"@,
        patch.deadline,
    );
    let located = with_text(dates, "address"@, patch.location);
    let chosen = with_options(
        with_options(located, "reminder_lead"@, patch.reminders),
        "tag"@,
        patch.tags,
    );
    let ruled = with_text(chosen, "rrule"@, patch.rrule);
    let excluded = match patch.exdates {
        Some(exdates) => ruled.push(
            SettingView::Text { key: "exdate"@, text: text::join(exdates, "\n"@) },
        ),
        None => ruled,
    };
    let linked = match patch.series {
        Some(series) => excluded.push(
            SettingView::Objects { key: "series"@, objects: seq![series] },
        ),
        None => excluded,
    };
    match patch.occurrence {
        Some(at) => linked.push(SettingView::Date { key: "occurrence"@, date: Some(at) }),
        None => linked,
    }
}

/// The properties that a patch writes, in the order in which they are sent.
pub fn properties_for(patch: &EventPatch) -> (r: Vec<Setting>)
    ensures
        object::settings(r@) == event_settings(patch@),
{
    let mut out: Vec<Setting> = Vec::new();
    assert(object::settings(out@) == Seq::<SettingView>::empty());
    put_date(&mut out, "start_date", &patch.start);
    put_date(&mut out, "end_date", &patch.end);
    put_date(&mut out, "deadline", &patch.deadline);
    put_text(&mut out, "address", &patch.location);
    put_options(&mut out, "reminder_lead", &patch.reminders);
    put_options(&mut out, "tag", &patch.tags);
    put_text(&mut out, "rrule", &patch.rrule);
    if let Some(exdates) = &patch.exdates {
        object::put_setting(
            &mut out,
            Setting::Text { key: "exdate".to_owned(), text: text::join_all(exdates, "\n") },
        );
    }
    if let Some(series) = &patch.series {
        let mut objects: Vec<String> = Vec::new();
        objects.push(series.clone());
        assert(text::texts(objects@) == seq![series@]);
        object::put_setting(&mut out, Setting::Objects { key: "series".to_owned(), objects });
    }
    if let Some(at) = &patch.occurrence {
        object::put_setting(
            &mut out,
            Setting::Date { key: "occurrence".to_owned(), date: Some(at.clone()) },
        );
    }
    out
}

// ------------------------------------------------------------------ options
/// How an option of a select property is come by.
#[derive(Debug, PartialEq, Eq)]
pub enum Choice {
    /// It is there, under this id.
    Taken(String),
    /// It is to be made under this name.
    Made(String),
}

#[verifier::ext_equal]
pub enum ChoiceView {
    Taken(Text),
    Made(Text),
}

impl View for Choice {
    type V = ChoiceView;

    open spec fn view(&self) -> ChoiceView {
        match self {
            Choice::Taken(id) => ChoiceView::Taken(id@),
            Choice::Made(name) => ChoiceView::Made(name@),
        }
    }
}

pub open spec fn choice_views(v: Seq<Choice>) -> Seq<ChoiceView> {
    Seq::new(v.len(), |i: int| v[i]@)
}

/// The option of a name: the first whose own name is that one without white space
/// around it.
pub open spec fn choice_of(options: Seq<Tag>, name: Text) -> ChoiceView
    decreases options.len(),
{
    if options.len() == 0 {
        ChoiceView::Made(name)
    } else if text::trimmed(options[0].name@) == name {
        ChoiceView::Taken(options[0].id@)
    } else {
        choice_of(options.drop_first(), name)
    }
}

fn choose_option(options: &Vec<Tag>, name: &str) -> (r: Choice)
    ensures
        r@ == choice_of(options@, name@),
{
    let mut i: usize = 0;
    assert(options@.skip(0) == options@);
    while i < options.len()
        invariant
            i <= options@.len(),
            choice_of(options@, name@) == choice_of(options@.skip(i as int), name@),
        decreases options@.len() - i,
    {
        assert(options@.skip(i as int).drop_first() == options@.skip(i + 1));
        if text::same(text::trim(options[i].name.as_str()), name) {
            return Choice::Taken(options[i].id.clone());
        }
        i += 1;
    }
    Choice::Made(name.to_owned())
}

/// How the options that some names stand for are come by, one for each name.
pub fn option_ids(options: &Vec<Tag>, names: &Vec<String>) -> (r: Vec<Choice>)
    ensures
        choice_views(r@) == Seq::new(names@.len(), |i: int| choice_of(options@, names@[i]@)),
{
    let mut r: Vec<Choice> = Vec::new();
    let mut i: usize = 0;
    while i < names.len()
        invariant
            i <= names@.len(),
            r@.len() == i,
            forall|k: int| 0 <= k < i ==> (#[trigger] r@[k])@ == choice_of(options@, names@[k]@),
        decreases names@.len() - i,
    {
        r.push(choose_option(options, names[i].as_str()));
        i += 1;
    }
    assert(choice_views(r@) =~= Seq::new(names@.len(), |i: int| choice_of(options@, names@[i]@)));
    r
}

/// An option that was made is found under its name once the options are read again.
pub proof fn law_a_made_option_is_found(options: Seq<Tag>, made: Tag)
    requires
        choice_of(options, text::trimmed(made.name@)) is Made,
    ensures
        choice_of(options.push(made), text::trimmed(made.name@)) == ChoiceView::Taken(made.id@),
    decreases options.len(),
{
    let name = text::trimmed(made.name@);
    if options.len() == 0 {
        assert(options.push(made)[0] == made);
    } else {
        assert(options.push(made)[0] == options[0]);
        assert(options.push(made).drop_first() == options.drop_first().push(made));
        law_a_made_option_is_found(options.drop_first(), made);
    }
}

/// The name that an event is created under.
pub open spec fn created_name(patch: EventPatchView) -> Text {
    match patch.name {
        Some(name) => name,
        None => "(unnamed)"@,
    }
}

/// The name that an event is created under.
pub fn creation_name(patch: &EventPatch) -> (r: String)
    ensures
        r@ == created_name(patch@),
{
    match &patch.name {
        Some(name) => name.clone(),
        None => "(unnamed)".to_owned(),
    }
}

/// The properties that an event is created with: the UID that its resource is known by
/// stands before the others. An object that replaces an occurrence has none, as it is
/// served in the resource of its series.
pub open spec fn created_settings(uid: Option<Text>, patch: EventPatchView) -> Seq<SettingView> {
    match uid {
        Some(uid) => seq![SettingView::Text { key: "ical_uid"@, text: uid }] + event_settings(patch),
        None => event_settings(patch),
    }
}

/// The properties that an event is created with.
pub fn creation_properties(uid: Option<&str>, patch: &EventPatch) -> (r: Vec<Setting>)
    ensures
        object::settings(r@) == created_settings(
            match uid {
                Some(uid) => Some(uid@),
                None => None,
            },
            patch@,
        ),
{
    let mut rest = properties_for(patch);
    match uid {
        Some(uid) => {
            let mut r: Vec<Setting> = Vec::new();
            r.push(Setting::Text { key: "ical_uid".to_owned(), text: uid.to_owned() });
            let ghost first = r@;
            let ghost others = rest@;
            r.append(&mut rest);
            assert(object::settings(r@) =~= object::settings(first) + object::settings(others));
            assert(object::settings(first) =~= seq![
                SettingView::Text { key: "ical_uid"@, text: uid@ },
            ]);
            r
        },
        None => rest,
    }
}

/// A rule is read without the name of its property, however often that stands before it, and
/// is otherwise as it is written.
pub proof fn law_a_rule_is_read_without_its_name(rule: Text, prefix: Text)
    requires
        prefix.len() > 0,
    ensures
        without_prefixes(prefix + rule, prefix) == without_prefixes(rule, prefix),
        !text::starts_with(without_prefixes(rule, prefix), prefix),
        !text::starts_with(rule, prefix) ==> without_prefixes(rule, prefix) == rule,
        text::ends_with(rule, without_prefixes(rule, prefix)),
    decreases rule.len(),
{
    let full = prefix + rule;
    assert(full.subrange(0, prefix.len() as int) == prefix);
    assert(full.subrange(prefix.len() as int, full.len() as int) == rule);
    if text::starts_with(rule, prefix) {
        let rest = rule.subrange(prefix.len() as int, rule.len() as int);
        law_a_rule_is_read_without_its_name(rest, prefix);
        let left = without_prefixes(rest, prefix);
        assert(rule.subrange(rule.len() - left.len(), rule.len() as int) == rest.subrange(
            rest.len() - left.len(),
            rest.len() as int,
        ));
    } else {
        assert(rule.subrange(0, rule.len() as int) == rule);
    }
}

/// A name is taken from the options that there are: the first that has it, but for the white
/// space around it. One is made only where none has it, and under that name.
pub proof fn law_an_option_is_taken_where_there_is_one(options: Seq<Tag>, name: Text)
    ensures
        match choice_of(options, name) {
            ChoiceView::Taken(id) => exists|i: int|
                0 <= i < options.len() && text::trimmed((#[trigger] options[i]).name@) == name
                    && options[i].id@ == id && forall|j: int|
                    0 <= j < i ==> text::trimmed((#[trigger] options[j]).name@) != name,
            ChoiceView::Made(made) => made == name && forall|j: int|
                0 <= j < options.len() ==> text::trimmed((#[trigger] options[j]).name@) != name,
        },
    decreases options.len(),
{
    if options.len() > 0 {
        if text::trimmed(options[0].name@) == name {
            assert(options[0].id@ == options[0].id@);
        } else {
            let rest = options.drop_first();
            law_an_option_is_taken_where_there_is_one(rest, name);
            match choice_of(rest, name) {
                ChoiceView::Taken(id) => {
                    let i = choose|i: int|
                        0 <= i < rest.len() && text::trimmed((#[trigger] rest[i]).name@) == name
                            && rest[i].id@ == id && forall|j: int|
                            0 <= j < i ==> text::trimmed((#[trigger] rest[j]).name@) != name;
                    assert(options[i + 1] == rest[i]);
                    assert forall|j: int| 0 <= j < i + 1 implies text::trimmed(
                        (#[trigger] options[j]).name@,
                    ) != name by {
                        if j > 0 {
                            assert(rest[j - 1] == options[j]);
                        }
                    }
                },
                ChoiceView::Made(_) => {
                    assert forall|j: int| 0 <= j < options.len() implies text::trimmed(
                        (#[trigger] options[j]).name@,
                    ) != name by {
                        if j > 0 {
                            assert(rest[j - 1] == options[j]);
                        }
                    }
                },
            }
        }
    }
}

/// An event is created with all that was asked of it, and kept under the UID that its client
/// gave it.
pub proof fn law_an_event_is_created_with_all_that_was_asked(
    uid: Option<Text>,
    patch: EventPatchView,
    i: int,
)
    ensures
        0 <= i < event_settings(patch).len() ==> created_settings(uid, patch).contains(
            event_settings(patch)[i],
        ),
        uid matches Some(uid) ==> created_settings(Some(uid), patch).contains(
            SettingView::Text { key: "ical_uid"@, text: uid },
        ),
        created_settings(uid, patch).len() == event_settings(patch).len() + (if uid is Some {
            1int
        } else {
            0int
        }),
        patch.name matches Some(name) ==> created_name(patch) == name,
{
    let all = created_settings(uid, patch);
    let asked = event_settings(patch);
    match uid {
        Some(uid) => {
            assert(all[0] == SettingView::Text { key: "ical_uid"@, text: uid });
            if 0 <= i < asked.len() {
                assert(all[i + 1] == asked[i]);
            }
        },
        None => {
            if 0 <= i < asked.len() {
                assert(all[i] == asked[i]);
            }
        },
    }
}

/// Every line of a stored list that is a date is left out of the series, and nothing else
/// is.
pub proof fn law_every_stored_date_is_left_out(lines: Seq<Text>, i: int)
    ensures
        0 <= i < lines.len() && model::date_of(lines[i]) is Some ==> dates_on(lines).contains(
            model::date_of(lines[i])->0,
        ),
        0 <= i < dates_on(lines).len() ==> exists|k: int|
            0 <= k < lines.len() && model::date_of(#[trigger] lines[k]) == Some(dates_on(lines)[i]),
    decreases lines.len(),
{
    if lines.len() > 0 {
        let front = lines.drop_last();
        let before = dates_on(front);
        let r = dates_on(lines);
        law_every_stored_date_is_left_out(front, i);
        assert(lines[lines.len() - 1] == lines.last());
        if 0 <= i < front.len() && model::date_of(lines[i]) is Some {
            let m = choose|m: int|
                0 <= m < before.len() && before[m] == model::date_of(front[i])->0;
            assert(r[m] == model::date_of(lines[i])->0);
        }
        if i == front.len() && model::date_of(lines[i]) is Some {
            assert(r[r.len() - 1] == model::date_of(lines[i])->0);
        }
        if 0 <= i < r.len() && i < before.len() {
            assert(r[i] == before[i]);
            let k = choose|k: int|
                0 <= k < front.len() && model::date_of(#[trigger] front[k]) == Some(before[i]);
            assert(lines[k] == front[k]);
        }
    }
}

/// An event is read from the properties that stand for it: its dates, its place, its tags
/// and its reminders each from their own, and the series that it belongs to is the first
/// that it links.
pub proof fn law_an_event_is_read_from_its_properties(
    object: Object,
    last_modified: Option<Instant>,
)
    ensures
        ({
            let p = object.properties@;
            let event = event_of(object, last_modified);
            &&& event.object_id == object.id@
            &&& event.object_url == Some(object.link@)
            &&& event.last_modified == last_modified
            &&& event.start == object::date_in(p, "start_date"@)
            &&& event.end == object::date_in(p, "end_date"@)
            &&& event.deadline == object::date_in(p, "deadline"@)
            &&& event.occurrence == object::date_in(p, "occurrence"@)
            &&& event.location == object::text_in(p, "address"@)
            &&& event.tags == object::names_in(p, "tag"@)
            &&& event.reminder_names == object::names_in(p, "reminder_lead"@)
            &&& event.series matches Some(series) ==> object::links_in(p, "series"@).len() > 0
                && series == object::links_in(p, "series"@).first()
            &&& event.series is None ==> object::links_in(p, "series"@).len() == 0
            &&& event.rrule is Some <==> object::text_in(p, "rrule"@) is Some
            &&& event.rrule matches Some(rule) ==> !text::starts_with(rule, "RRULE:"@)
            &&& text::trimmed(event.name).len() > 0 || event.name == "(unnamed)"@
            &&& object.name is Some && text::trimmed(object.name->0@).len() > 0 ==> event.name
                == object.name->0@
        }),
{
    reveal_strlit("RRULE:");
    assert("RRULE:"@.len() == 6);
    if let Some(rule) = object::text_in(object.properties@, "rrule"@) {
        law_a_rule_is_read_without_its_name(text::trimmed(rule), "RRULE:"@);
    }
}

} // verus!
