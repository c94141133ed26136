//! The course of a write to an event or a series, and of one to a deadline.
//!
//! As for tasks, what one call of the space came to decides on the next. A series takes
//! one call per object.
use vstd::prelude::*;

use super::events as collection;
use super::events::{refs, Write};
use super::tasks;
use super::xml;
use super::xml::{Answer, AnswerView};
use crate::config::CalendarConfig;
use crate::event_changes;
use crate::event_changes::{
    EventPatch, EventPatchView, EventWriteError, IncomingEvent, IncomingSeries, IncomingSeriesView,
    SeriesPlan, SeriesPlanView,
};
use crate::events;
use crate::events::Event;
use crate::ical;
use crate::source::SourceError;
use crate::text;
use crate::text::Text;
use crate::time::Instant;

verus! {

/// What a write to an event calls for.
pub enum Step {
    /// The object is read as it is now, and for a series those that point at it.
    Read(String),
    /// An event is made under a UID.
    Create(String, EventPatch),
    /// The write at this place of the plan is made.
    Write(usize),
    /// The object that was written is read, for its new tag.
    ReadBack(String),
    /// The request is answered.
    Answer(Answer),
}

#[verifier::ext_equal]
pub enum StepView {
    Read(Text),
    Create(Text, EventPatchView),
    Write(int),
    ReadBack(Text),
    Answer(AnswerView),
}

impl View for Step {
    type V = StepView;

    open spec fn view(&self) -> StepView {
        match self {
            Step::Read(id) => StepView::Read(id@),
            Step::Create(uid, patch) => StepView::Create(uid@, patch@),
            Step::Write(at) => StepView::Write(*at as int),
            Step::ReadBack(id) => StepView::ReadBack(id@),
            Step::Answer(answer) => StepView::Answer(answer@),
        }
    }
}

/// What came of a call.
pub enum Outcome {
    /// What was read, with the objects that point at it; nothing where it is gone.
    Read(Option<(Event, Vec<Event>)>),
    /// One write of the plan was made.
    Stored,
    /// An event was made under this id.
    Created(String),
    Failed(SourceError),
}

/// A write to an event, and how far it has come.
pub struct EventWrite {
    /// The resource name that is written to.
    pub name: String,
    /// What a PUT sends; a DELETE sends nothing.
    pub incoming: Option<IncomingSeries>,
    /// The tag that the client expects.
    pub expected: Option<String>,
    /// Whether the client expects that there is nothing.
    pub none: bool,
    /// The object that is written, once it is known.
    pub object_id: String,
    /// Whether it is made by this write.
    pub made: bool,
    /// What is written of it and of the objects that replace its occurrences.
    pub plan: SeriesPlan,
    pub step: Step,
}

#[verifier::ext_equal]
pub struct EventWriteView {
    pub name: Text,
    pub incoming: Option<IncomingSeriesView>,
    pub expected: Option<Text>,
    pub none: bool,
    pub object_id: Text,
    pub made: bool,
    pub plan: SeriesPlanView,
    pub step: StepView,
}

pub open spec fn incoming_view(incoming: Option<IncomingSeries>) -> Option<IncomingSeriesView> {
    match incoming {
        Some(incoming) => Some(incoming@),
        None => None,
    }
}

impl View for EventWrite {
    type V = EventWriteView;

    open spec fn view(&self) -> EventWriteView {
        EventWriteView {
            name: self.name@,
            incoming: incoming_view(self.incoming),
            expected: text::text_of(self.expected),
            none: self.none,
            object_id: self.object_id@,
            made: self.made,
            plan: self.plan@,
            step: self.step@,
        }
    }
}

/// How many writes a write still has to make in all.
pub open spec fn planned(write: EventWriteView) -> int {
    collection::plan_writes(write.object_id, write.plan).len() as int
}

/// What is called for once all of a plan is written: the answer of a DELETE, and the
/// reading back of a PUT.
pub open spec fn finished(write: EventWriteView) -> StepView {
    if write.incoming is Some {
        StepView::ReadBack(write.object_id)
    } else {
        StepView::Answer(xml::bare(204))
    }
}

/// What is made of a new series: the master, under its UID, and behind it the objects
/// that replace its occurrences.
pub open spec fn creating(
    write: EventWriteView,
    incoming: IncomingSeriesView,
    expected: Option<Text>,
    config: CalendarConfig,
) -> EventWriteView {
    match collection::creation_refusal(write.name, expected, incoming) {
        Some(answer) => EventWriteView { step: StepView::Answer(answer), ..write },
        None => EventWriteView {
            made: true,
            plan: SeriesPlanView {
                create: event_changes::new_replacements(incoming.replacements, config),
                ..event_changes::no_plan()
            },
            step: StepView::Create(
                incoming.master.uid->0,
                EventPatchView {
                    rrule: match incoming.master.rrule {
                        Some(rule) => Some(Some(rule)),
                        None => None,
                    },
                    exdates: event_changes::excluded_change(
                        Seq::empty(),
                        incoming.master.exdates,
                        config,
                    ),
                    ..event_changes::event_creation(incoming.master, config)
                },
            ),
            ..write
        },
    }
}

/// Patches that are linked to a new series.
pub open spec fn linked(patches: Seq<EventPatchView>, master_id: Text) -> Seq<EventPatchView> {
    Seq::new(
        patches.len(),
        |i: int| EventPatchView { series: Some(master_id), ..patches[i] },
    )
}

/// What a write comes to once the event is read. A plan without a change is not written.
pub open spec fn once_read(
    write: EventWriteView,
    id: Text,
    event: Event,
    replacements: Seq<Event>,
    config: CalendarConfig,
    fallback: Instant,
) -> EventWriteView {
    match write.incoming {
        Some(incoming) => match collection::event_put(
            event@,
            replacements,
            incoming,
            write.expected,
            write.none,
            config,
            fallback,
        ) {
            Err(answer) => EventWriteView { step: StepView::Answer(answer), ..write },
            Ok(plan) => EventWriteView {
                object_id: id,
                plan,
                step: if collection::plan_writes(id, plan).len() == 0 {
                    StepView::ReadBack(id)
                } else {
                    StepView::Write(0)
                },
                ..write
            },
        },
        None => match collection::event_deletion(
            event@,
            replacements,
            write.expected,
            config,
            fallback,
        ) {
            Err(answer) => EventWriteView { step: StepView::Answer(answer), ..write },
            Ok(ids) => EventWriteView {
                object_id: id,
                plan: SeriesPlanView { archive: ids, ..event_changes::no_plan() },
                step: StepView::Write(0),
                ..write
            },
        },
    }
}

/// What a write comes to where the event is gone: a PUT makes it anew, unless it expects
/// it to be there.
pub open spec fn once_gone(write: EventWriteView, config: CalendarConfig) -> EventWriteView {
    match write.incoming {
        None => EventWriteView { step: StepView::Answer(xml::bare(404)), ..write },
        Some(incoming) => if write.expected is Some {
            EventWriteView {
                step: StepView::Answer(super::failed_condition("resource no longer exists"@)),
                ..write
            }
        } else {
            creating(write, incoming, None, config)
        },
    }
}

/// What a write comes to once the event is made: the objects that replace its occurrences
/// are linked to it and made behind it.
pub open spec fn once_made(write: EventWriteView, id: Text) -> EventWriteView {
    let plan = SeriesPlanView { create: linked(write.plan.create, id), ..write.plan };
    EventWriteView {
        object_id: id,
        plan,
        step: if collection::plan_writes(id, plan).len() == 0 {
            StepView::ReadBack(id)
        } else {
            StepView::Write(0)
        },
        ..write
    }
}

/// The status of a successful PUT.
pub open spec fn status_of(write: EventWriteView) -> int {
    if write.made {
        201
    } else {
        204
    }
}

/// What an outcome leads to. One that the step cannot have changes nothing.
pub open spec fn after(
    write: EventWriteView,
    outcome: Outcome,
    config: CalendarConfig,
    fallback: Instant,
) -> EventWriteView {
    match (write.step, outcome) {
        (StepView::Read(_), Outcome::Read(None)) => once_gone(write, config),
        (StepView::Read(id), Outcome::Read(Some((event, replacements)))) => once_read(
            write,
            id,
            event,
            replacements@,
            config,
            fallback,
        ),
        (StepView::Create(..), Outcome::Created(id)) => once_made(write, id@),
        (StepView::Write(at), Outcome::Stored) => EventWriteView {
            step: if at + 1 < planned(write) {
                StepView::Write(at + 1)
            } else {
                finished(write)
            },
            ..write
        },
        (StepView::ReadBack(_), Outcome::Read(Some((event, replacements)))) => EventWriteView {
            step: StepView::Answer(
                tasks::written_answer(
                    status_of(write),
                    collection::event_tag(event@, replacements@, config, fallback),
                ),
            ),
            ..write
        },
        (StepView::ReadBack(_), Outcome::Read(None))
        | (StepView::ReadBack(_), Outcome::Failed(_)) => EventWriteView {
            step: StepView::Answer(tasks::written_answer(status_of(write), None)),
            ..write
        },
        (StepView::Read(_), Outcome::Failed(err))
        | (StepView::Create(..), Outcome::Failed(err))
        | (StepView::Write(_), Outcome::Failed(err)) => EventWriteView {
            step: StepView::Answer(super::failure_answer(err)),
            ..write
        },
        _ => write,
    }
}

/// Whether what was read before is out of date with an outcome: the event is gone, or all
/// was written that could be. A failure among several writes leaves some of them made.
pub open spec fn forgets(write: EventWriteView, outcome: Outcome) -> bool {
    match (write.step, outcome) {
        (StepView::Read(_), Outcome::Read(None)) => true,
        (StepView::Create(..), Outcome::Created(id)) => once_made(write, id@).step is ReadBack,
        (StepView::Write(at), Outcome::Stored) => at + 1 >= planned(write),
        (StepView::Write(_), Outcome::Failed(_)) => true,
        _ => false,
    }
}

impl EventWrite {
    /// Whether the place of a write is one of the plan.
    pub open spec fn wf(self) -> bool {
        self@.step matches StepView::Write(at) ==> 0 <= at < planned(self@)
    }

    /// A PUT of an event: it is read where there is one, and made otherwise.
    pub fn put(
        name: String,
        object_id: Option<String>,
        incoming: IncomingSeries,
        expected: Option<String>,
        none: bool,
        config: &CalendarConfig,
    ) -> (r: EventWrite)
        ensures
            ({
                let write = EventWriteView {
                    name: name@,
                    incoming: Some(incoming@),
                    expected: text::text_of(expected),
                    none,
                    object_id: Seq::empty(),
                    made: false,
                    plan: event_changes::no_plan(),
                    step: StepView::Answer(xml::bare(404)),
                };
                r@ == (match text::text_of(object_id) {
                    Some(id) => EventWriteView { step: StepView::Read(id), ..write },
                    None => creating(write, incoming@, text::text_of(expected), *config),
                })
            }),
            r.wf(),
    {
        let mut write = EventWrite {
            name,
            incoming: Some(incoming),
            expected,
            none,
            object_id: String::new(),
            made: false,
            plan: SeriesPlan::default(),
            step: Step::Answer(xml::status(404)),
        };
        assert(write.object_id@ == Seq::<char>::empty());
        match object_id {
            Some(id) => {
                write.step = Step::Read(id);
            },
            None => {
                write.create(false, config);
            },
        }
        write
    }

    /// A DELETE of an event.
    pub fn delete(name: String, object_id: Option<String>, expected: Option<String>) -> (r:
        EventWrite)
        ensures
            r@ == (EventWriteView {
                name: name@,
                incoming: None,
                expected: text::text_of(expected),
                none: false,
                object_id: Seq::empty(),
                made: false,
                plan: event_changes::no_plan(),
                step: match text::text_of(object_id) {
                    Some(id) => StepView::Read(id),
                    None => StepView::Answer(xml::bare(404)),
                },
            }),
            r.wf(),
    {
        let step = match object_id {
            Some(id) => Step::Read(id),
            None => Step::Answer(xml::status(404)),
        };
        let r = EventWrite {
            name,
            incoming: None,
            expected,
            none: false,
            object_id: String::new(),
            made: false,
            plan: SeriesPlan::default(),
            step,
        };
        assert(r.object_id@ == Seq::<char>::empty());
        r
    }

    /// Calls for the event to be made; `anew` where it was there and is gone.
    fn create(&mut self, anew: bool, config: &CalendarConfig)
        requires
            old(self).incoming is Some,
        ensures
            final(self)@ == creating(
                old(self)@,
                old(self)@.incoming->0,
                if anew {
                    None
                } else {
                    old(self)@.expected
                },
                *config,
            ),
            final(self).wf(),
    {
        let ghost before = self@;
        let made = match &self.incoming {
            Some(incoming) => {
                let nothing: Option<String> = None;
                let expected = if anew {
                    &nothing
                } else {
                    &self.expected
                };
                collection::create_event(self.name.as_str(), expected, incoming, config)
            },
            None => {
                return ;
            },
        };
        match made {
            Err(answer) => {
                self.step = Step::Answer(answer);
            },
            Ok(made) => {
                self.made = true;
                let mut plan = SeriesPlan::default();
                plan.create = made.replacements;
                assert(plan@ == (SeriesPlanView {
                    create: event_changes::patches(made.replacements@),
                    ..event_changes::no_plan()
                }));
                self.plan = plan;
                self.step = Step::Create(made.uid, made.master);
            },
        }
        assert(self@ == creating(
            before,
            before.incoming->0,
            if anew {
                None
            } else {
                before.expected
            },
            *config,
        ));
    }

    fn read(
        &mut self,
        id: String,
        event: &Event,
        replacements: &Vec<Event>,
        config: &CalendarConfig,
        fallback: Instant,
    )
        requires
            events::series_folds(event@, refs(replacements@)),
            ical::name_folds(config.name@),
        ensures
            final(self)@ == once_read(
                old(self)@,
                id@,
                *event,
                replacements@,
                *config,
                fallback,
            ),
            final(self).wf(),
    {
        match &self.incoming {
            Some(incoming) => {
                let decided = collection::put_event(
                    event,
                    replacements,
                    incoming,
                    &self.expected,
                    self.none,
                    config,
                    fallback,
                );
                match decided {
                    Err(answer) => {
                        self.step = Step::Answer(answer);
                    },
                    Ok(plan) => {
                        proof {
                            collection::law_an_empty_plan_writes_nothing(id@, plan@);
                        }
                        self.step = if plan.is_empty() {
                            Step::ReadBack(id.clone())
                        } else {
                            Step::Write(0)
                        };
                        self.plan = plan;
                        self.object_id = id;
                    },
                }
            },
            None => {
                let decided = collection::delete_event(
                    event,
                    replacements,
                    &self.expected,
                    config,
                    fallback,
                );
                match decided {
                    Err(answer) => {
                        self.step = Step::Answer(answer);
                    },
                    Ok(ids) => {
                        let mut plan = SeriesPlan::default();
                        plan.archive = ids;
                        assert(plan@ == (SeriesPlanView {
                            archive: text::texts(ids@),
                            ..event_changes::no_plan()
                        }));
                        proof {
                            collection::law_an_empty_plan_writes_nothing(id@, plan@);
                        }
                        self.plan = plan;
                        self.object_id = id;
                        self.step = Step::Write(0);
                    },
                }
            },
        }
    }

    fn link(&mut self, id: &str)
        ensures
            final(self)@ == once_made(old(self)@, id@),
            final(self).wf(),
    {
        let ghost before = self@;
        let ghost all = event_changes::patches(self.plan.create@);
        let ghost wanted = linked(all, id@);
        let mut done: Vec<EventPatch> = Vec::new();
        let mut waiting = SeriesPlan::default();
        std::mem::swap(&mut waiting, &mut self.plan);
        let mut i: usize = 0;
        let count: usize = waiting.create.len();
        assert(all.skip(0) == all);
        while i < count
            invariant
                i <= count,
                count == all.len(),
                wanted == linked(all, id@),
                event_changes::patches(waiting.create@) == all.skip(i as int),
                event_changes::patches(done@) == wanted.take(i as int),
                waiting@.master == before.plan.master,
                waiting@.update == before.plan.update,
                waiting@.archive == before.plan.archive,
            decreases count - i,
        {
            let ghost left = waiting.create@;
            assert(left.len() == event_changes::patches(left).len());
            assert(event_changes::patches(left)[0] == all[i as int]);
            let ghost so_far = done@;
            let mut patch = waiting.create.remove(0);
            assert(event_changes::patches(waiting.create@) =~= all.skip(i + 1)) by {
                assert forall|k: int| 0 <= k < waiting.create@.len() implies (
                #[trigger] waiting.create@[k])@ == all.skip(i + 1)[k] by {
                    assert(event_changes::patches(left)[k + 1] == all.skip(i as int)[k + 1]);
                }
            }
            collection::link_replacement(&mut patch, id);
            assert(patch@ == wanted[i as int]);
            done.push(patch);
            assert(event_changes::patches(done@) == event_changes::patches(so_far).push(patch@));
            assert(wanted.take(i + 1) == wanted.take(i as int).push(wanted[i as int]));
            i += 1;
        }
        assert(wanted.take(wanted.len() as int) == wanted);
        waiting.create = done;
        assert(waiting@ == (SeriesPlanView { create: wanted, ..before.plan }));
        proof {
            collection::law_an_empty_plan_writes_nothing(id@, waiting@);
        }
        self.step = if waiting.is_empty() {
            Step::ReadBack(id.to_owned())
        } else {
            Step::Write(0)
        };
        self.plan = waiting;
        self.object_id = id.to_owned();
    }

    fn count(&self) -> (r: usize)
        ensures
            r == planned(self@),
    {
        let writes = collection::apply_plan(self.object_id.as_str(), &self.plan);
        assert(collection::write_views(writes@).len() == writes@.len());
        writes.len()
    }

    /// The write at a place of the plan.
    pub fn write_at<'a>(&'a self, at: usize) -> (r: Write<'a>)
        requires
            at < planned(self@),
        ensures
            r@ == collection::plan_writes(self@.object_id, self@.plan)[at as int],
    {
        let writes = collection::apply_plan(self.object_id.as_str(), &self.plan);
        assert(collection::write_views(writes@).len() == writes@.len());
        assert(collection::write_views(writes@)[at as int] == writes@[at as int]@);
        writes[at]
    }

    fn status(&self) -> (r: u16)
        ensures
            r == status_of(self@),
    {
        if self.made {
            201
        } else {
            204
        }
    }

    /// Takes in what came of the step. Returns whether what was read before is out of
    /// date, so that the next request is to read the space again.
    pub fn take(&mut self, outcome: Outcome, config: &CalendarConfig, fallback: Instant) -> (forget:
        bool)
        requires
            old(self).wf(),
            ical::name_folds(config.name@),
            outcome matches Outcome::Read(Some((event, replacements))) ==> events::series_folds(
                event@,
                refs(replacements@),
            ),
        ensures
            final(self)@ == after(old(self)@, outcome, *config, fallback),
            forget == forgets(old(self)@, outcome),
            final(self).wf(),
    {
        let ghost before = self@;
        match outcome {
            Outcome::Failed(err) => {
                let (next, forget) = match &self.step {
                    Step::Answer(_) => (None, false),
                    Step::ReadBack(_) => (
                        Some(Step::Answer(tasks::written(self.status(), &None))),
                        false,
                    ),
                    Step::Write(_) => (Some(Step::Answer(super::source_failure(&err))), true),
                    _ => (Some(Step::Answer(super::source_failure(&err))), false),
                };
                if let Some(step) = next {
                    self.step = step;
                }
                forget
            },
            Outcome::Read(None) => {
                if let Step::Read(_) = &self.step {
                    if self.incoming.is_none() {
                        self.step = Step::Answer(xml::status(404));
                    } else {
                        match tasks::vanished(&self.expected) {
                            Some(answer) => {
                                self.step = Step::Answer(answer);
                            },
                            None => {
                                self.create(true, config);
                            },
                        }
                    }
                    return true;
                }
                if let Step::ReadBack(_) = &self.step {
                    self.step = Step::Answer(tasks::written(self.status(), &None));
                }
                false
            },
            Outcome::Read(Some((event, replacements))) => {
                let id = match &self.step {
                    Step::Read(id) => id.clone(),
                    Step::ReadBack(_) => {
                        let answer = collection::event_written(
                            self.status(),
                            Some((&event, &replacements)),
                            config,
                            fallback,
                        );
                        self.step = Step::Answer(answer);
                        return false;
                    },
                    _ => {
                        return false;
                    },
                };
                self.read(id, &event, &replacements, config, fallback);
                false
            },
            Outcome::Created(id) => {
                if let Step::Create(_, _) = &self.step {
                    self.link(id.as_str());
                    if let Step::ReadBack(_) = &self.step {
                        return true;
                    }
                }
                false
            },
            Outcome::Stored => {
                let at: usize = match &self.step {
                    Step::Write(at) => *at,
                    _ => {
                        return false;
                    },
                };
                let count = self.count();
                if at + 1 < count {
                    self.step = Step::Write(at + 1);
                    false
                } else {
                    self.step = if self.incoming.is_some() {
                        Step::ReadBack(self.object_id.clone())
                    } else {
                        Step::Answer(xml::status(204))
                    };
                    true
                }
            },
        }
    }
}

/// Whether an outcome is one that a step can have.
pub open spec fn fits(step: StepView, outcome: Outcome) -> bool {
    match step {
        StepView::Read(_) | StepView::ReadBack(_) => outcome is Read || outcome is Failed,
        StepView::Create(..) => outcome is Created || outcome is Failed,
        StepView::Write(_) => outcome is Stored || outcome is Failed,
        StepView::Answer(_) => false,
    }
}

/// Every call brings a write closer to its answer: it goes on from reading to making, to
/// the writes of the plan one by one, to reading back, to the answer.
pub proof fn law_a_write_is_answered(
    write: EventWriteView,
    outcome: Outcome,
    config: CalendarConfig,
    fallback: Instant,
)
    requires
        fits(write.step, outcome),
        write.step matches StepView::Write(at) ==> 0 <= at < planned(write),
    ensures
        ({
            let now = after(write, outcome, config, fallback);
            match (write.step, now.step) {
                (_, StepView::Answer(_)) => true,
                (StepView::Read(_), StepView::Read(_)) => false,
                (StepView::Read(_), _) => true,
                (StepView::Create(..), StepView::Write(at)) => at == 0,
                (StepView::Create(..), StepView::ReadBack(_)) => true,
                (StepView::Write(at), StepView::Write(next)) => next == at + 1 && next < planned(
                    now,
                ) && planned(now) == planned(write),
                (StepView::Write(_), StepView::ReadBack(_)) => true,
                _ => false,
            }
        }),
{
}

/// With the last call that writes, what was read before is out of date, unless nothing
/// could be made.
pub proof fn law_a_write_is_seen_at_once(
    write: EventWriteView,
    outcome: Outcome,
    config: CalendarConfig,
    fallback: Instant,
)
    requires
        write.step is Write || write.step is Create,
        fits(write.step, outcome),
        !(after(write, outcome, config, fallback).step is Write),
    ensures
        forgets(write, outcome) || write.step is Create && outcome is Failed,
{
}

// ------------------------------------------------------------------ deadlines

/// What a write to a deadline's entry calls for.
pub enum DeadlineStep {
    /// The event is read as it is now.
    Read(String),
    /// The event is changed.
    Update(String, EventPatch),
    /// The event is read, for the new tag of the entry.
    ReadBack(String),
    Answer(Answer),
}

#[verifier::ext_equal]
pub enum DeadlineStepView {
    Read(Text),
    Update(Text, EventPatchView),
    ReadBack(Text),
    Answer(AnswerView),
}

impl View for DeadlineStep {
    type V = DeadlineStepView;

    open spec fn view(&self) -> DeadlineStepView {
        match self {
            DeadlineStep::Read(id) => DeadlineStepView::Read(id@),
            DeadlineStep::Update(id, patch) => DeadlineStepView::Update(id@, patch@),
            DeadlineStep::ReadBack(id) => DeadlineStepView::ReadBack(id@),
            DeadlineStep::Answer(answer) => DeadlineStepView::Answer(answer@),
        }
    }
}

/// What a PUT to a deadline's entry writes, or a DELETE, or what either is answered.
pub open spec fn deadline_change(
    moved: Option<Result<EventPatchView, AnswerView>>,
) -> Result<EventPatchView, AnswerView> {
    match moved {
        Some(moved) => moved,
        None => Ok(
            EventPatchView { deadline: Some(None), ..event_changes::no_event_change() },
        ),
    }
}

/// What a write to a deadline's entry calls for once the event is read. `moved` is what a
/// PUT writes, or what it is answered; a DELETE has none.
pub open spec fn once_owner_read(
    event: Event,
    moved: Option<Result<EventPatchView, AnswerView>>,
    expected: Option<Text>,
    config: CalendarConfig,
    fallback: Instant,
) -> DeadlineStepView {
    if collection::mismatch(expected, collection::deadline_tag(event@, config, fallback)) {
        DeadlineStepView::Answer(super::failed_condition("etag mismatch"@))
    } else {
        match deadline_change(moved) {
            Ok(patch) => DeadlineStepView::Update(event.object_id@, patch),
            Err(answer) => DeadlineStepView::Answer(answer),
        }
    }
}

/// What a write to a deadline's entry calls for first. A deadline is made on its event,
/// never on its own.
pub fn begin_deadline(object_id: Option<String>) -> (r: DeadlineStep)
    ensures
        r@ == (match text::text_of(object_id) {
            Some(id) => DeadlineStepView::Read(id),
            None => DeadlineStepView::Answer(xml::bare(404)),
        }),
{
    match object_id {
        Some(id) => DeadlineStep::Read(id),
        None => DeadlineStep::Answer(xml::status(404)),
    }
}

/// What the event that was read leads to, and whether what was read before is out of date:
/// the event is gone.
pub fn deadline_read(
    read: &Result<Option<Event>, SourceError>,
    moved: Option<Result<IncomingEvent, EventWriteError>>,
    expected: &Option<String>,
    config: &CalendarConfig,
    fallback: Instant,
) -> (r: (DeadlineStep, bool))
    requires
        ical::name_folds(config.name@),
        read matches Ok(Some(event)) ==> events::entry_folds(event@, config.language),
    ensures
        r.0@ == (match read {
            Err(err) => DeadlineStepView::Answer(super::failure_answer(*err)),
            Ok(None) => DeadlineStepView::Answer(xml::bare(404)),
            Ok(Some(event)) => once_owner_read(
                *event,
                match moved {
                    Some(parsed) => Some(collection::deadline_put(parsed, *config)),
                    None => None,
                },
                text::text_of(*expected),
                *config,
                fallback,
            ),
        }),
        r.1 == (*read matches Ok(None)),
{
    match read {
        Err(err) => (DeadlineStep::Answer(super::source_failure(err)), false),
        Ok(None) => (DeadlineStep::Answer(xml::status(404)), true),
        Ok(Some(event)) => {
            if let Some(answer) = collection::deadline_owner(event, expected, config, fallback) {
                return (DeadlineStep::Answer(answer), false);
            }
            let change = match moved {
                Some(parsed) => collection::put_deadline(parsed, config),
                None => Ok(collection::delete_deadline()),
            };
            match change {
                Ok(patch) => (DeadlineStep::Update(event.object_id.clone(), patch), false),
                Err(answer) => (DeadlineStep::Answer(answer), false),
            }
        },
    }
}

/// What a change of a deadline leads to, and whether what was read before is out of date.
/// A deadline that moved is read back; one that was cleared is not there.
pub fn deadline_written(stored: &Result<(), SourceError>, object_id: &str, moved: bool) -> (r: (
    DeadlineStep,
    bool,
))
    ensures
        r.0@ == (match stored {
            Err(err) => DeadlineStepView::Answer(super::failure_answer(*err)),
            Ok(()) => if moved {
                DeadlineStepView::ReadBack(object_id@)
            } else {
                DeadlineStepView::Answer(xml::bare(204))
            },
        }),
        r.1 == (stored is Ok),
{
    match stored {
        Err(err) => (DeadlineStep::Answer(super::source_failure(err)), false),
        Ok(()) => if moved {
            (DeadlineStep::ReadBack(object_id.to_owned()), true)
        } else {
            (DeadlineStep::Answer(xml::status(204)), true)
        },
    }
}

/// What a deadline that moved is answered, with the tag of the entry where it could be read
/// back.
pub fn deadline_read_back(
    read: &Result<Option<Event>, SourceError>,
    config: &CalendarConfig,
    fallback: Instant,
) -> (r: Answer)
    requires
        ical::name_folds(config.name@),
        read matches Ok(Some(event)) ==> events::entry_folds(event@, config.language),
    ensures
        r@ == tasks::written_answer(
            204,
            match read {
                Ok(Some(event)) => collection::deadline_tag(event@, *config, fallback),
                _ => None,
            },
        ),
{
    let etag = match read {
        Ok(Some(event)) => collection::tag_of_deadline(event, config, fallback),
        _ => None,
    };
    tasks::written(204, &etag)
}

} // verus!
