//! Commands, occurrences and the progress views built from them.
use vstd::prelude::*;
use crate::calendars::anchors::Anchor;
use crate::error::ErrorCode;
use crate::policy::{Policy, policy_shares};
use crate::resources::FieldValue;
use crate::tasks::definition::Definition;
use crate::tasks::goals::{Evidence, Goal, Outcome, Progress, entries_ok, evaluate, progress_matches};
use crate::tasks::schedule::Slot;
use crate::text::{byte_len, chars_of, string_from_chars};
use crate::time::{
    MAX_DAY, MIN_DAY, date_of_text, day_number, day_number_exec, parse_date, resolve, resolve_wall,
    tz_known, zone_known,
};
use crate::is_canonical_uuid;

verus! {

/// How dependants are completed together with their prerequisites.
#[derive(Clone, Copy, Debug, PartialEq, Eq, Structural)]
pub enum CompletionMode {
    RequireSatisfied,
    CompletePrerequisites,
    AdvisoryOverride,
}

/// One occurrence of a dependency preview.
pub struct DependencyItem {
    pub occurrence_id: String,
    pub task_id: String,
    pub complete: bool,
    /// Only the caller's own checkbox stream is offered. Editing another
    /// participant's stream is an explicit ordinary progress operation.
    pub can_complete: bool,
    pub progress_version: Option<i64>,
}

/// The prerequisites of an occurrence, as offered for completion.
pub struct DependencyPreview {
    pub token: String,
    /// Prerequisites precede dependants; the requested occurrence is last.
    pub items: Vec<DependencyItem>,
    pub unavailable: bool,
    pub strict: bool,
}

/// The participant a rota assigns to an occurrence.
pub struct RotaAssignment {
    pub revision: i64,
    pub ordinal: i64,
    pub account_id: Option<String>,
}

/// A task's rota and the caller's consent to it.
pub struct RotaState {
    pub version: i64,
    pub participants: Vec<String>,
    /// Consented, enrolled candidates, visible only to execution editors.
    pub eligible_participants: Vec<String>,
    pub consent_version: i64,
    pub accepted: bool,
}

/// A timed work session on an occurrence.
pub struct TimerSession {
    pub id: String,
    pub occurrence_id: String,
    pub started_at: i64,
    pub stopped_at: Option<i64>,
    pub version: i64,
}

/// A change to tasks, lists, progress or fields.
pub enum TaskCommand {
    SetRota { task_id: String, expected_version: i64, participants: Vec<String> },
    RotaConsent { task_id: String, expected_version: i64, accepted: bool },
    CancelTimer { occurrence_id: String, session_id: String, expected_version: i64 },
    StartTimer { occurrence_id: String, session_id: String, started_at: i64 },
    StopTimer { occurrence_id: String, session_id: String, expected_version: i64, stopped_at: i64 },
    SetDependencies {
        occurrence_id: String,
        expected_version: i64,
        prerequisites: Vec<String>,
        strict: bool,
    },
    CompleteDependencies {
        root_evidence: Option<Evidence>,
        occurrence_id: String,
        preview_token: String,
        mode: CompletionMode,
        happened_at: i64,
    },
    CreateTask {
        id: String,
        execution_id: String,
        title: String,
        definition: Definition,
        anchor: Option<Anchor>,
        initial_policy: Option<Policy>,
    },
    ReviseTask { id: String, expected_version: i64, title: String, definition: Definition },
    Enrol {
        task_id: String,
        expected_version: i64,
        active: bool,
        aggregate_consent: bool,
        initial_policy: Option<Policy>,
    },
    Materialise { task_id: String, through_date: String, limit: u16 },
    Record {
        occurrence_id: String,
        subject_account_id: String,
        entry_id: String,
        evidence: Evidence,
        replaces: Option<String>,
        expected_version: Option<i64>,
        happened_at: i64,
    },
    Exclude { occurrence_id: String, expected_version: i64, excluded: bool },
    Resolve { occurrence_id: String, expected_version: i64, resolved: bool },
    ReviseOccurrence {
        id: String,
        expected_version: i64,
        definition: Definition,
        date: Option<String>,
        time: Option<String>,
    },
    CreateList { id: String, name: String, initial_policy: Option<Policy> },
    EditList { id: String, expected_version: i64, name: String },
    ListItem { list_id: String, expected_version: i64, task_id: String, included: bool },
    Archive { id: String, expected_version: i64, archived: bool },
    PutField {
        id: String,
        parent_id: String,
        expected_version: Option<i64>,
        label: String,
        value: FieldValue,
        initial_policy: Option<Policy>,
    },
}

/// An initial policy that shares the new resource.
pub open spec fn shares_initially(p: Option<Policy>) -> bool {
    p is Some && policy_shares(p->Some_0)
}

/// Commands that need the server: enrolment and rota changes, and creations
/// whose initial policy shares the new resource.
pub open spec fn needs_server(c: TaskCommand) -> bool {
    match c {
        TaskCommand::Enrol { .. } => true,
        TaskCommand::SetRota { .. } => true,
        TaskCommand::RotaConsent { .. } => true,
        TaskCommand::CreateTask { initial_policy, .. } => shares_initially(initial_policy),
        TaskCommand::CreateList { initial_policy, .. } => shares_initially(initial_policy),
        TaskCommand::PutField { initial_policy, .. } => shares_initially(initial_policy),
        _ => false,
    }
}

impl TaskCommand {
    /// Whether the command must be applied online (see `needs_server`).
    pub fn online(&self) -> (b: bool)
        ensures
            b == needs_server(*self),
    {
        match self {
            TaskCommand::Enrol { .. } | TaskCommand::SetRota { .. } | TaskCommand::RotaConsent {
                ..
            } => true,
            TaskCommand::CreateTask { initial_policy, .. } | TaskCommand::CreateList {
                initial_policy,
                ..
            } | TaskCommand::PutField { initial_policy, .. } => match initial_policy {
                Some(p) => p.shares(),
                None => false,
            },
            _ => false,
        }
    }
}

/// An occurrence: its task, definition snapshot, slot and window.
pub struct OccurrenceData {
    pub rota: Option<RotaAssignment>,
    pub task_id: String,
    pub definition: Definition,
    pub slot: Slot,
    pub opens_at: Option<i64>,
    pub closes_at: Option<i64>,
    pub participants: Vec<String>,
    pub covered_by: Option<String>,
    pub resolved: bool,
}

/// One recorded piece of evidence.
pub struct Entry {
    pub id: String,
    pub evidence: Evidence,
    pub happened_at: i64,
    pub recorded_by: String,
}

/// One participant's evidence for an occurrence.
pub struct Stream {
    pub subject_account_id: String,
    pub entries: Vec<Entry>,
    pub excluded: bool,
    pub aggregate_consent: bool,
}

/// A participant's progress: recent entries, and the evaluation of all
/// entries and of those inside the window.
pub struct ProgressState {
    pub subject_account_id: String,
    pub recent_entries: Vec<Entry>,
    pub entry_count: usize,
    pub excluded: bool,
    pub aggregate_consent: bool,
    pub action: Progress,
    pub period: Progress,
}

/// The result of an applied command.
pub struct TaskResult {
    pub revision: i64,
}

/// An occurrence as a reader sees it.
pub struct OccurrenceView {
    pub id: String,
    pub version: i64,
    pub can_edit: bool,
    pub data: OccurrenceData,
    pub outcome: Outcome,
    pub period_outcome: Outcome,
    pub actionable: bool,
}

/// A page of occurrences.
pub struct ViewPage {
    pub items: Vec<OccurrenceView>,
    pub next_after: Option<String>,
    pub revision: i64,
    pub pending_tasks: Vec<String>,
}

/// Which occurrences a page shows.
pub struct ViewFilter {
    pub task_id: Option<String>,
    pub list_id: Option<String>,
    pub day: Option<String>,
    pub timezone: Option<String>,
    pub state: Option<String>,
    pub after: Option<String>,
    pub limit: Option<u16>,
    pub revision: Option<i64>,
    pub scope: Option<String>,
}

/// The evidence of entries, in order.
pub open spec fn evidence_of(entries: Seq<Entry>) -> Seq<Evidence> {
    entries.map_values(|e: Entry| e.evidence)
}

/// An entry happened inside a window (open start, exclusive end).
pub open spec fn in_window(e: Entry, open: Option<i64>, close: Option<i64>) -> bool {
    (open is None || e.happened_at >= open->Some_0) && (close is None || e.happened_at
        < close->Some_0)
}

/// The evidence of the entries inside a window, in order.
pub open spec fn window_evidence(entries: Seq<Entry>, open: Option<i64>, close: Option<i64>) -> Seq<
    Evidence,
>
    decreases entries.len(),
{
    if entries.len() == 0 {
        Seq::<Evidence>::empty()
    } else {
        let rest = window_evidence(entries.drop_last(), open, close);
        if in_window(entries.last(), open, close) {
            rest.push(entries.last().evidence)
        } else {
            rest
        }
    }
}

/// Two entries hold the same values.
pub open spec fn same_entry(a: Entry, b: Entry) -> bool {
    a.id@ == b.id@ && a.evidence == b.evidence && a.happened_at == b.happened_at && a.recorded_by@
        == b.recorded_by@
}

impl Entry {
    /// A copy of this entry.
    pub fn duplicate(&self) -> (e: Entry)
        ensures
            same_entry(e, *self),
    {
        Entry {
            id: self.id.clone(),
            evidence: self.evidence.duplicate(),
            happened_at: self.happened_at,
            recorded_by: self.recorded_by.clone(),
        }
    }
}

/// The progress of one stream: every entry for the action, the entries
/// inside the window for the period, and the last eight entries.
pub fn progress_state(stream: &Stream, goal: &Goal, open: Option<i64>, close: Option<i64>) -> (r:
    Result<ProgressState, ErrorCode>)
    ensures
        r is Ok <==> entries_ok(*goal, evidence_of(stream.entries@)) && entries_ok(
            *goal,
            window_evidence(stream.entries@, open, close),
        ),
        r matches Err(e) ==> e == ErrorCode::InvalidValue,
        r matches Ok(p) ==> {
            let n = stream.entries@.len();
            let k = if n < 8 { n } else { 8 };
            &&& p.subject_account_id@ == stream.subject_account_id@
            &&& p.recent_entries@.len() == k
            &&& forall|i: int|
                0 <= i < k ==> same_entry(#[trigger] p.recent_entries@[i], stream.entries@[n - k + i])
            &&& p.entry_count == n
            &&& p.excluded == stream.excluded
            &&& p.aggregate_consent == stream.aggregate_consent
            &&& progress_matches(p.action, *goal, evidence_of(stream.entries@), false)
            &&& progress_matches(p.period, *goal, window_evidence(stream.entries@, open, close), false)
        },
{
    let entries = &stream.entries;
    let mut all: Vec<Evidence> = Vec::new();
    let mut period: Vec<Evidence> = Vec::new();
    let mut i: usize = 0;
    while i < entries.len()
        invariant
            i <= entries@.len(),
            all@ == evidence_of(entries@.take(i as int)),
            period@ == window_evidence(entries@.take(i as int), open, close),
        decreases entries.len() - i,
    {
        let e = &entries[i];
        proof {
            assert(entries@.take(i as int + 1).drop_last() =~= entries@.take(i as int));
        }
        all.push(e.evidence.duplicate());
        let inside = match open {
            Some(v) => e.happened_at >= v,
            None => true,
        } && match close {
            Some(v) => e.happened_at < v,
            None => true,
        };
        if inside {
            period.push(e.evidence.duplicate());
        }
        i = i + 1;
        assert(all@ =~= evidence_of(entries@.take(i as int)));
    }
    assert(entries@.take(entries@.len() as int) =~= entries@);
    let n = entries.len();
    let k: usize = if n < 8 { n } else { 8 };
    let mut recent: Vec<Entry> = Vec::new();
    let mut j: usize = n - k;
    while j < n
        invariant
            n == entries@.len(),
            k == (if n < 8 { n } else { 8 }),
            n - k <= j <= n,
            recent@.len() == j - (n - k),
            forall|m: int| 0 <= m < recent@.len() ==> same_entry(#[trigger] recent@[m], entries@[n - k + m]),
        decreases n - j,
    {
        recent.push(entries[j].duplicate());
        j = j + 1;
    }
    let action = match evaluate(goal, all.as_slice(), false) {
        Ok(p) => p,
        Err(e) => return Err(e),
    };
    let window = match evaluate(goal, period.as_slice(), false) {
        Ok(p) => p,
        Err(e) => return Err(e),
    };
    Ok(ProgressState {
        subject_account_id: stream.subject_account_id.clone(),
        recent_entries: recent,
        entry_count: n,
        excluded: stream.excluded,
        aggregate_consent: stream.aggregate_consent,
        action,
        period: window,
    })
}

/// The instants at which an occurrence opens and closes: local midnight
/// `open_days_before` days before its date and `close_days_after` days
/// after it, in the slot's zone. Undated slots have no window.
pub open spec fn window_of(slot: Slot, d: Definition) -> Result<(Option<i64>, Option<i64>), ErrorCode> {
    if slot.date is None {
        Ok((None, None))
    } else if date_of_text(slot.date->Some_0@) is None || !tz_known(slot.timezone@) {
        Err(ErrorCode::InvalidValue)
    } else {
        let day = day_number(date_of_text(slot.date->Some_0@)->Some_0);
        let open = day - d.open_days_before;
        let close = day + d.close_days_after;
        if !(MIN_DAY <= open) || !(close <= MAX_DAY) {
            Err(ErrorCode::InvalidValue)
        } else {
            match (resolve_wall(slot.timezone@, open * 86400), resolve_wall(slot.timezone@, close * 86400)) {
                (Some(a), Some(b)) => Ok((Some(a as i64), Some(b as i64))),
                _ => Err(ErrorCode::InvalidValue),
            }
        }
    }
}

/// The window of an occurrence (see `window_of`).
pub fn windows(slot: &Slot, definition: &Definition) -> (r: Result<(Option<i64>, Option<i64>), ErrorCode>)
    ensures
        r == window_of(*slot, *definition),
{
    let date = match &slot.date {
        Some(d) => d,
        None => return Ok((None, None)),
    };
    let date = match parse_date(date.as_str()) {
        Ok(d) => d,
        Err(e) => return Err(e),
    };
    let zone = slot.timezone.as_str();
    if !zone_known(zone) {
        return Err(ErrorCode::InvalidValue);
    }
    proof {
        crate::time::lemma_day_number_range(date);
    }
    let day = day_number_exec(date);
    let open = day - definition.open_days_before as i64;
    let close = day + definition.close_days_after as i64;
    if open < MIN_DAY || close > MAX_DAY {
        return Err(ErrorCode::InvalidValue);
    }
    let a = match resolve(zone, open * 86400) {
        Ok(t) => t,
        Err(e) => return Err(e),
    };
    let b = match resolve(zone, close * 86400) {
        Ok(t) => t,
        Err(e) => return Err(e),
    };
    Ok((Some(a), Some(b)))
}

/// The version-5 UUID of a name in a namespace, as canonical text.
pub uninterp spec fn uuid_v5(namespace: Seq<char>, name: Seq<char>) -> Seq<char>;

/// `Uuid::new_v5` with the namespace parsed from its canonical text and the
/// name's UTF-8 bytes, rendered by `Display`: the text named `uuid_v5`,
/// which is canonical.
#[verifier::external_body]
pub(crate) fn uuid_v5_text(namespace: &str, name: &str) -> (r: String)
    requires
        is_canonical_uuid(namespace@),
    ensures
        r@ == uuid_v5(namespace@, name@),
        is_canonical_uuid(r@),
{
    uuid::Uuid::new_v5(&uuid::Uuid::parse_str(namespace).unwrap(), name.as_bytes()).to_string()
}

/// `prefix` followed by `rest`, as a string.
fn prefixed(prefix: &[char], rest: &str) -> (s: String)
    ensures
        s@ == prefix@ + rest@,
{
    let mut v: Vec<char> = Vec::new();
    let mut i: usize = 0;
    while i < prefix.len()
        invariant
            i <= prefix@.len(),
            v@ == prefix@.take(i as int),
        decreases prefix.len() - i,
    {
        v.push(prefix[i]);
        i = i + 1;
        assert(v@ =~= prefix@.take(i as int));
    }
    let r = chars_of(rest);
    let mut j: usize = 0;
    while j < r.len()
        invariant
            i == prefix@.len(),
            j <= r@.len(),
            r@ == rest@,
            v@ == prefix@.take(i as int) + r@.take(j as int),
        decreases r.len() - j,
    {
        v.push(r[j]);
        j = j + 1;
        assert(v@ =~= prefix@.take(i as int) + r@.take(j as int));
    }
    assert(prefix@.take(i as int) =~= prefix@);
    assert(r@.take(j as int) =~= r@);
    string_from_chars(v.as_slice())
}

/// The identity of a task's occurrence in a slot: a version-5 UUID in the
/// task's namespace, so offline clients can queue creation. The task must
/// be a canonical UUID and the key 1 to 100 bytes long.
pub fn occurrence_id(task: &str, slot_key: &str) -> (r: Result<String, ErrorCode>)
    ensures
        r is Ok <==> is_canonical_uuid(task@) && 0 < byte_len(slot_key@) <= 100,
        r matches Ok(id) ==> id@ == uuid_v5(task@, "atlas-occurrence-v1:"@ + slot_key@),
        r matches Err(e) ==> e == ErrorCode::InvalidValue,
{
    if crate::identifier(task).is_err() {
        return Err(ErrorCode::InvalidValue);
    }
    if slot_key.len() == 0 || slot_key.len() > 100 {
        return Err(ErrorCode::InvalidValue);
    }
    let prefix: Vec<char> = vec![
        'a', 't', 'l', 'a', 's', '-', 'o', 'c', 'c', 'u', 'r', 'r', 'e', 'n', 'c', 'e', '-', 'v', '1', ':',
    ];
    proof {
        reveal_strlit("atlas-occurrence-v1:");
    }
    assert(prefix@ =~= "atlas-occurrence-v1:"@);
    let name = prefixed(prefix.as_slice(), slot_key);
    Ok(uuid_v5_text(task, name.as_str()))
}

/// The identity of an account's progress on an occurrence: a version-5 UUID
/// in the occurrence's namespace. Both must be canonical UUIDs.
pub fn progress_id(occurrence: &str, account: &str) -> (r: Result<String, ErrorCode>)
    ensures
        r is Ok <==> is_canonical_uuid(occurrence@) && is_canonical_uuid(account@),
        r matches Ok(id) ==> id@ == uuid_v5(occurrence@, "atlas-progress-v1:"@ + account@),
        r matches Err(e) ==> e == ErrorCode::InvalidValue,
{
    if crate::identifier(occurrence).is_err() || crate::identifier(account).is_err() {
        return Err(ErrorCode::InvalidValue);
    }
    let prefix: Vec<char> = vec![
        'a', 't', 'l', 'a', 's', '-', 'p', 'r', 'o', 'g', 'r', 'e', 's', 's', '-', 'v', '1', ':',
    ];
    proof {
        reveal_strlit("atlas-progress-v1:");
    }
    assert(prefix@ =~= "atlas-progress-v1:"@);
    let name = prefixed(prefix.as_slice(), account);
    Ok(uuid_v5_text(occurrence, name.as_str()))
}

} // verus!
