# anytype_caldav

One [Anytype](https://anytype.io) space as calendars: a CalDAV facade, an iCalendar
subscription and Web Push reminders. The rules of the service — what is served where, what
a write does to an object, when a reminder is due, which occurrences of a series are made —
are a library whose behaviour is stated in contracts and proved by Verus. What talks to the
outside (HTTP, SQLite, the Anytype SDK, push services) is a thin program around it.

## Layout

| Path | What |
|---|---|
| `src/` | the verified library |
| `tests/` | its tests, run against the real outside crates |
| `app/` | the program: arguments, HTTP, storage, the SDK, timers |

The library by module:

| Module | What |
|---|---|
| `model`, `object` | tasks, dates and the objects of a space as plain values |
| `config` | the settings as written and as checked, with the first complaint of each |
| `anytype_source`, `event_source` | objects read as tasks and events, and what a patch writes |
| `feed` | the published snapshot: resources, tags and a calendar per person |
| `render`, `events`, `ical` | tasks and events as iCalendar |
| `fold`, `nesting` | which lines can be folded and which documents can be read |
| `writeback`, `event_changes`, `capture` | what a client's body changes |
| `unchanged` | that what is sent back as it was served changes nothing |
| `caldav` | routing, preconditions, the course of every write and the answers of every CalDAV request |
| `http` | the feed's validators, CORS, subscribing and capturing |
| `reminder`, `scheduler`, `push` | when a reminder is due, what it says, whom it reaches |
| `series`, `recurrence` | recurrence rules and the occurrences that are made ahead |
| `install` | the schema of a space and what it lacks |
| `accounts`, `digest` | logins derived from a secret |
| `text`, `table`, `order`, `time`, `locale` | what the others are made of |

Functions of outside crates are called through small wrappers whose contracts are believed
rather than proved: each says in its doc comment which function it calls and what it claims
of it. Results that take pages to state (an RRULE expansion, an iCalendar document, a
digest) are names without a definition, and the contracts speak of those names.

## Program

```
anytype-caldav [--config c.toml]          runs the service
anytype-caldav … init [--apply]           checks the space's schema
anytype-caldav … generate [--apply]       shows the occurrences of series due today
anytype-caldav … users                    prints every person's login
```

Without `anytype.space_id` it lists the account's spaces with their ids and stops.

`ANYTYPE_CALDAV__<SECTION>__<KEY>` overrides a setting of the file. Secrets come from the
environment: `ANYTYPE_API_KEY`, `CALDAV_PASSWORD` and `ACCOUNTS_SECRET`, each also from a
file named by the same variable with `_FILE` appended.
