//! The course of a write to a task.
//!
//! A PUT and a DELETE each take some calls of the space, and what one of them came to
//! decides on the next: a fresh read on what is written, a write on what is read back.
//! `TaskWrite` says what is called for, and takes in what came of it.
use vstd::prelude::*;

use super::tasks;
use super::tasks::{Located, LocatedView, Removal, RemovalView};
use super::xml;
use super::xml::{Answer, AnswerView};
use crate::config::{CalendarConfig, RemindersConfig};
use crate::feed;
use crate::ical;
use crate::model::Task;
use crate::render;
use crate::source::SourceError;
use crate::text;
use crate::text::Text;
use crate::time::Instant;
use crate::writeback;
use crate::writeback::{Incoming, IncomingView, Patch, PatchView, Wire};

verus! {

/// What a write to a task calls for.
pub enum Step {
    /// The object is read as it is now: the snapshot may be older than an edit made in
    /// the space a moment ago.
    Read(String),
    /// The object is changed; the code is that of the answer.
    Update(String, Patch, u16),
    /// A task is made under a UID.
    Create(String, Patch),
    /// The object is archived.
    Archive(String),
    /// The object is changed so that a person leaves it.
    Leave(String, Patch),
    /// The object that was written is read, for its new tag.
    ReadBack(String, u16),
    /// The request is answered.
    Answer(Answer),
}

#[verifier::ext_equal]
pub enum StepView {
    Read(Text),
    Update(Text, PatchView, int),
    Create(Text, PatchView),
    Archive(Text),
    Leave(Text, PatchView),
    ReadBack(Text, int),
    Answer(AnswerView),
}

impl View for Step {
    type V = StepView;

    open spec fn view(&self) -> StepView {
        match self {
            Step::Read(id) => StepView::Read(id@),
            Step::Update(id, patch, code) => StepView::Update(id@, patch@, *code as int),
            Step::Create(uid, patch) => StepView::Create(uid@, patch@),
            Step::Archive(id) => StepView::Archive(id@),
            Step::Leave(id, patch) => StepView::Leave(id@, patch@),
            Step::ReadBack(id, code) => StepView::ReadBack(id@, *code as int),
            Step::Answer(answer) => StepView::Answer(answer@),
        }
    }
}

/// What came of a call.
pub enum Outcome {
    /// What was read; nothing where the object is gone.
    Read(Option<Task>),
    /// The object was changed or archived.
    Stored,
    /// An object was made under this id.
    Created(String),
    Failed(SourceError),
}

/// A write to a task, and how far it has come.
pub struct TaskWrite {
    /// The resource name that is written to.
    pub name: String,
    pub located: Located,
    /// What a PUT sends; a DELETE sends nothing.
    pub incoming: Option<Incoming>,
    /// The tag that the client expects.
    pub expected: Option<String>,
    /// Whether the client expects that there is nothing.
    pub none: bool,
    pub step: Step,
}

#[verifier::ext_equal]
pub struct TaskWriteView {
    pub name: Text,
    pub located: LocatedView,
    pub incoming: Option<IncomingView>,
    pub expected: Option<Text>,
    pub none: bool,
    pub step: StepView,
}

pub open spec fn incoming_view(incoming: Option<Incoming>) -> Option<IncomingView> {
    match incoming {
        Some(incoming) => Some(incoming@),
        None => None,
    }
}

impl View for TaskWrite {
    type V = TaskWriteView;

    open spec fn view(&self) -> TaskWriteView {
        TaskWriteView {
            name: self.name@,
            located: self.located@,
            incoming: incoming_view(self.incoming),
            expected: text::text_of(self.expected),
            none: self.none,
            step: self.step@,
        }
    }
}

/// What making a task calls for.
pub open spec fn creation_step(
    name: Text,
    expected: Option<Text>,
    incoming: IncomingView,
    member_id: Option<Text>,
    config: CalendarConfig,
) -> StepView {
    match tasks::task_creation(name, expected, incoming, member_id, config) {
        Ok((uid, patch)) => StepView::Create(uid, patch),
        Err(answer) => StepView::Answer(answer),
    }
}

/// What a PUT calls for first: the task is read where the snapshot has one, and made
/// otherwise.
pub open spec fn first_of_put(
    name: Text,
    located: LocatedView,
    incoming: IncomingView,
    expected: Option<Text>,
    config: CalendarConfig,
) -> StepView {
    match located.object_id {
        Some(id) => StepView::Read(id),
        None => creation_step(name, expected, incoming, located.member_id, config),
    }
}

/// What a DELETE calls for first.
pub open spec fn first_of_delete(located: LocatedView) -> StepView {
    match tasks::deletion_of(located) {
        Ok(id) => StepView::Read(id),
        Err(answer) => StepView::Answer(answer),
    }
}

/// The status of a successful PUT: a moved task is new where it is put.
pub open spec fn status_of_put(located: LocatedView) -> int {
    if located.here {
        204
    } else {
        201
    }
}

/// What a write calls for once the task is read, where `tag` is the tag of the task and
/// `sent` the dates that it is sent with. A patch without a change is not written.
pub open spec fn once_read(
    write: TaskWriteView,
    id: Text,
    task: Task,
    tag: Text,
    sent: Wire,
    config: CalendarConfig,
) -> StepView {
    match write.incoming {
        Some(incoming) => match tasks::task_update(
            task,
            sent,
            tag,
            write.located,
            incoming,
            write.expected,
            write.none,
            config,
        ) {
            Err(answer) => StepView::Answer(answer),
            Ok(patch) => if patch == writeback::no_change() {
                StepView::ReadBack(id, status_of_put(write.located))
            } else {
                StepView::Update(id, patch, status_of_put(write.located))
            },
        },
        None => match tasks::removal_of(
            text::texts(task.assignees@),
            tag,
            write.located.member_id,
            write.expected,
        ) {
            Err(answer) => StepView::Answer(answer),
            Ok(RemovalView::Archive) => StepView::Archive(id),
            Ok(RemovalView::Update(patch)) => StepView::Leave(id, patch),
        },
    }
}

/// What a write calls for where the task is gone: a PUT makes it anew, unless it expects
/// it to be there.
pub open spec fn once_gone(write: TaskWriteView, config: CalendarConfig) -> StepView {
    match write.incoming {
        None => StepView::Answer(xml::bare(404)),
        Some(incoming) => if write.expected is Some {
            StepView::Answer(super::failed_condition("resource no longer exists"@))
        } else {
            creation_step(write.name, None, incoming, write.located.member_id, config)
        },
    }
}

/// What an outcome leads to, and whether what the snapshot holds is out of date with it.
/// An outcome that the step cannot have changes nothing.
pub open spec fn after(
    write: TaskWriteView,
    outcome: Outcome,
    tag: Text,
    sent: Wire,
    config: CalendarConfig,
) -> (StepView, bool) {
    match (write.step, outcome) {
        (StepView::Read(_), Outcome::Failed(err)) => (
            StepView::Answer(super::failure_answer(err)),
            false,
        ),
        (StepView::Read(_), Outcome::Read(None)) => (once_gone(write, config), true),
        (StepView::Read(id), Outcome::Read(Some(task))) => (
            once_read(write, id, task, tag, sent, config),
            false,
        ),
        (StepView::Update(id, _, code), Outcome::Stored) => (StepView::ReadBack(id, code), true),
        (StepView::Create(..), Outcome::Created(id)) => (StepView::ReadBack(id@, 201), true),
        (StepView::Archive(_), Outcome::Stored) | (StepView::Leave(..), Outcome::Stored) => (
            StepView::Answer(xml::bare(204)),
            true,
        ),
        (StepView::Update(..), Outcome::Failed(err))
        | (StepView::Create(..), Outcome::Failed(err))
        | (StepView::Archive(_), Outcome::Failed(err))
        | (StepView::Leave(..), Outcome::Failed(err)) => (
            StepView::Answer(super::failure_answer(err)),
            false,
        ),
        (StepView::ReadBack(_, code), Outcome::Read(Some(_))) => (
            StepView::Answer(tasks::written_answer(code, Some(tag))),
            false,
        ),
        (StepView::ReadBack(_, code), Outcome::Read(None))
        | (StepView::ReadBack(_, code), Outcome::Failed(_)) => (
            StepView::Answer(tasks::written_answer(code, None)),
            false,
        ),
        _ => (write.step, false),
    }
}

/// Whether a tag and dates are those of the task that was read, if one was.
pub open spec fn known_of(
    outcome: Outcome,
    tag: Text,
    sent: Wire,
    config: CalendarConfig,
    reminders: RemindersConfig,
    fallback: Instant,
) -> bool {
    outcome matches Outcome::Read(Some(task)) ==> {
        &&& exists|r: feed::ResourceView| #[trigger]
            feed::is_resource(r, task, config, reminders, fallback) && r.etag == tag
        &&& render::sent_view(sent.start) == render::sent_of(task, config).start
        &&& render::sent_view(sent.due) == render::sent_of(task, config).due
    }
}

/// Whether a write came from one step to another by an outcome.
pub open spec fn came_to(
    before: TaskWriteView,
    outcome: Outcome,
    now: TaskWriteView,
    forget: bool,
    config: CalendarConfig,
    reminders: RemindersConfig,
    fallback: Instant,
) -> bool {
    exists|tag: Text, sent: Wire| #[trigger]
        known_of(outcome, tag, sent, config, reminders, fallback) && now == (TaskWriteView {
            step: after(before, outcome, tag, sent, config).0,
            ..before
        }) && forget == after(before, outcome, tag, sent, config).1
}

fn creation(
    name: &str,
    expected: &Option<String>,
    incoming: &Incoming,
    member_id: &Option<String>,
    config: &CalendarConfig,
) -> (r: Step)
    ensures
        r@ == creation_step(
            name@,
            text::text_of(*expected),
            incoming@,
            text::text_of(*member_id),
            *config,
        ),
{
    match tasks::create(name, expected, incoming, member_id, config) {
        Ok((uid, patch)) => Step::Create(uid, patch),
        Err(answer) => Step::Answer(answer),
    }
}

impl TaskWrite {
    /// A PUT of a task.
    pub fn put(
        name: String,
        located: Located,
        incoming: Incoming,
        expected: Option<String>,
        none: bool,
        config: &CalendarConfig,
    ) -> (r: TaskWrite)
        ensures
            r@ == (TaskWriteView {
                name: name@,
                located: located@,
                incoming: Some(incoming@),
                expected: text::text_of(expected),
                none,
                step: first_of_put(
                    name@,
                    located@,
                    incoming@,
                    text::text_of(expected),
                    *config,
                ),
            }),
    {
        let step = match &located.object_id {
            Some(id) => Step::Read(id.clone()),
            None => creation(name.as_str(), &expected, &incoming, &located.member_id, config),
        };
        TaskWrite { name, located, incoming: Some(incoming), expected, none, step }
    }

    /// A DELETE of a task.
    pub fn delete(name: String, located: Located, expected: Option<String>) -> (r: TaskWrite)
        ensures
            r@ == (TaskWriteView {
                name: name@,
                located: located@,
                incoming: None,
                expected: text::text_of(expected),
                none: false,
                step: first_of_delete(located@),
            }),
    {
        let step = match tasks::begin_delete(&located) {
            Ok(id) => Step::Read(id),
            Err(answer) => Step::Answer(answer),
        };
        TaskWrite { name, located, incoming: None, expected, none: false, step }
    }

    fn once_read(&self, id: &str, task: &Task, tag: &str, sent: &Wire, config: &CalendarConfig) -> (r:
        Step)
        ensures
            r@ == once_read(self@, id@, *task, tag@, *sent, *config),
    {
        match &self.incoming {
            Some(incoming) => match tasks::put(
                task,
                sent,
                tag,
                &self.located,
                incoming,
                &self.expected,
                self.none,
                config,
            ) {
                Err(answer) => Step::Answer(answer),
                Ok(patch) => if patch.is_empty() {
                    Step::ReadBack(id.to_owned(), tasks::put_status(&self.located))
                } else {
                    Step::Update(id.to_owned(), patch, tasks::put_status(&self.located))
                },
            },
            None => match tasks::delete(task, tag, &self.located, &self.expected) {
                Err(answer) => Step::Answer(answer),
                Ok(Removal::Archive) => Step::Archive(id.to_owned()),
                Ok(Removal::Update(patch)) => Step::Leave(id.to_owned(), patch),
            },
        }
    }

    fn once_gone(&self, config: &CalendarConfig) -> (r: Step)
        ensures
            r@ == once_gone(self@, *config),
    {
        match &self.incoming {
            None => Step::Answer(xml::status(404)),
            Some(incoming) => match tasks::vanished(&self.expected) {
                Some(answer) => Step::Answer(answer),
                None => creation(
                    self.name.as_str(),
                    &None,
                    incoming,
                    &self.located.member_id,
                    config,
                ),
            },
        }
    }

    /// The step behind an outcome, if there is one, and whether the snapshot is out of
    /// date.
    fn next(&self, outcome: &Outcome, tag: &str, sent: &Wire, config: &CalendarConfig) -> (r: (
        Option<Step>,
        bool,
    ))
        ensures
            ({
                let wanted = after(self@, *outcome, tag@, *sent, *config);
                &&& r.1 == wanted.1
                &&& match r.0 {
                    Some(step) => step@ == wanted.0,
                    None => self@.step == wanted.0,
                }
            }),
    {
        match (&self.step, outcome) {
            (Step::Read(id), Outcome::Read(Some(task))) => (
                Some(self.once_read(id.as_str(), task, tag, sent, config)),
                false,
            ),
            (Step::Read(_), Outcome::Read(None)) => (Some(self.once_gone(config)), true),
            (Step::Update(id, _, code), Outcome::Stored) => (
                Some(Step::ReadBack(id.clone(), *code)),
                true,
            ),
            (Step::Create(_, _), Outcome::Created(id)) => (
                Some(Step::ReadBack(id.clone(), 201)),
                true,
            ),
            (Step::Archive(_), Outcome::Stored) => (Some(Step::Answer(xml::status(204))), true),
            (Step::Leave(_, _), Outcome::Stored) => (Some(Step::Answer(xml::status(204))), true),
            (Step::ReadBack(_, code), Outcome::Read(Some(_))) => (
                Some(Step::Answer(tasks::written(*code, &Some(tag.to_owned())))),
                false,
            ),
            (Step::ReadBack(_, code), Outcome::Read(None)) => (
                Some(Step::Answer(tasks::written(*code, &None))),
                false,
            ),
            (Step::ReadBack(_, code), Outcome::Failed(_)) => (
                Some(Step::Answer(tasks::written(*code, &None))),
                false,
            ),
            (Step::Answer(_), _) => (None, false),
            (_, Outcome::Failed(err)) => (Some(Step::Answer(super::source_failure(err))), false),
            _ => (None, false),
        }
    }

    /// Takes in what came of the step. Returns whether the snapshot is out of date, so
    /// that the next request is to read the space again.
    pub fn take(
        &mut self,
        outcome: &Outcome,
        config: &CalendarConfig,
        reminders: &RemindersConfig,
        fallback: Instant,
    ) -> (forget: bool)
        requires
            reminders.all_day_time < 86_400,
            ical::name_folds(config.name@),
            outcome matches Outcome::Read(Some(task)) ==> render::task_folds(*task, config.language),
        ensures
            came_to(
                old(self)@,
                *outcome,
                final(self)@,
                forget,
                *config,
                *reminders,
                fallback,
            ),
    {
        let ghost before = self@;
        let (tag, sent) = match outcome {
            Outcome::Read(Some(task)) => {
                let resource = feed::resource_for(task, config, reminders, fallback);
                assert(feed::is_resource(resource@, *task, *config, *reminders, fallback));
                (resource.etag, render::wire(task, config))
            },
            _ => (String::new(), Wire { start: None, due: None }),
        };
        assert(known_of(*outcome, tag@, sent, *config, *reminders, fallback));
        let (next, forget) = self.next(outcome, tag.as_str(), &sent, config);
        if let Some(step) = next {
            self.step = step;
        }
        assert(self@ == (TaskWriteView {
            step: after(before, *outcome, tag@, sent, *config).0,
            ..before
        }));
        forget
    }
}

/// How many calls a write can still take.
pub open spec fn calls_left(step: StepView) -> nat {
    match step {
        StepView::Read(_) => 3,
        StepView::Update(..)
        | StepView::Create(..)
        | StepView::Archive(_)
        | StepView::Leave(..) => 2,
        StepView::ReadBack(..) => 1,
        StepView::Answer(_) => 0,
    }
}

/// Whether an outcome is one that a step can have.
pub open spec fn fits(step: StepView, outcome: Outcome) -> bool {
    match step {
        StepView::Read(_) | StepView::ReadBack(..) => outcome is Read || outcome is Failed,
        StepView::Update(..) | StepView::Archive(_) | StepView::Leave(..) => outcome is Stored
            || outcome is Failed,
        StepView::Create(..) => outcome is Created || outcome is Failed,
        StepView::Answer(_) => false,
    }
}

/// Every call brings a write closer to its answer, so that it is answered after three
/// calls at most.
pub proof fn law_a_write_is_answered(
    write: TaskWriteView,
    outcome: Outcome,
    tag: Text,
    sent: Wire,
    config: CalendarConfig,
)
    requires
        fits(write.step, outcome),
    ensures
        calls_left(after(write, outcome, tag, sent, config).0) < calls_left(write.step),
{
}

/// Whatever is written, the snapshot is out of date with it.
pub proof fn law_a_write_is_seen_at_once(
    write: TaskWriteView,
    outcome: Outcome,
    tag: Text,
    sent: Wire,
    config: CalendarConfig,
)
    requires
        fits(write.step, outcome),
        outcome is Stored || outcome is Created,
    ensures
        after(write, outcome, tag, sent, config).1,
{
}

/// A write that expects another tag than the task has is answered, and writes nothing.
pub proof fn law_a_stale_write_is_answered(
    write: TaskWriteView,
    id: Text,
    task: Task,
    tag: Text,
    sent: Wire,
    config: CalendarConfig,
)
    requires
        write.step == StepView::Read(id),
        write.expected is Some,
        write.expected->0 != tag,
    ensures
        after(write, Outcome::Read(Some(task)), tag, sent, config).0 is Answer,
{
}

/// A PUT of what the task is already writes nothing.
pub proof fn law_nothing_changed_is_not_written(
    write: TaskWriteView,
    id: Text,
    task: Task,
    tag: Text,
    sent: Wire,
    incoming: IncomingView,
    config: CalendarConfig,
)
    requires
        write.step == StepView::Read(id),
        write.incoming == Some(incoming),
        write.located.here,
        writeback::update_of(task, sent, incoming, config) == writeback::no_change(),
    ensures
        ({
            let step = after(write, Outcome::Read(Some(task)), tag, sent, config).0;
            step is Answer || step == StepView::ReadBack(id, 204)
        }),
{
}

} // verus!
