//! Goals, evidence and their evaluation into outcomes, aggregates and streaks.
use vstd::prelude::*;
use crate::error::ErrorCode;
use crate::tasks::decimal::{Decimal, MAX_UNITS, decimal_units, render_units};
use crate::text::{is_blank, lex_lt, str_eq};
use crate::{content_ok, is_canonical_uuid};

verus! {

/// One item of a checklist goal.
pub struct ChecklistItem {
    pub id: String,
    pub label: String,
}

/// What counts as doing a task.
pub enum Goal {
    Checkbox,
    Numeric { minimum: Option<Decimal>, maximum: Option<Decimal>, unit: String },
    Checklist { items: Vec<ChecklistItem> },
}

/// One recorded piece of progress.
#[derive(Clone, Debug)]
pub enum Evidence {
    Checkbox { complete: bool },
    Quantity { amount: Decimal },
    Checklist { item_id: String, complete: bool },
    /// Explicitly observed a numeric window, including an observed zero.
    Observe,
}

/// The state of a period or an aggregate.
#[derive(Clone, Copy, Debug, PartialEq, Eq, Structural)]
pub enum Outcome {
    Unknown,
    Incomplete,
    Provisional,
    Complete,
    Missed,
    Excluded,
}

/// Who must take part for an occurrence to be done.
#[derive(Clone, Copy, Debug, PartialEq, Eq, Structural)]
pub enum Participation {
    Personal,
    Anyone,
    Everyone,
    Pooled,
}

/// The evaluation of one stream of evidence.
pub struct Progress {
    pub outcome: Outcome,
    pub amount: Option<Decimal>,
    pub checked: Vec<String>,
}

/// The items of a checklist goal are 1 to 100 items with canonical,
/// distinct identities and valid labels.
pub open spec fn checklist_valid(items: Seq<ChecklistItem>) -> bool {
    &&& 1 <= items.len() <= 100
    &&& forall|i: int|
        0 <= i < items.len() ==> is_canonical_uuid(#[trigger] items[i].id@) && content_ok(
            items[i].label@,
            Seq::<char>::empty(),
        )
    &&& forall|i: int, j: int|
        0 <= i < j < items.len() ==> #[trigger] items[i].id@ != #[trigger] items[j].id@
}

/// The units of an optional bound, when it is a valid amount.
pub open spec fn bound_units(b: Option<Decimal>) -> Option<int> {
    match b {
        Some(d) => decimal_units(d.0@),
        None => None,
    }
}

/// A goal the rules accept.
pub open spec fn goal_valid(g: Goal) -> bool {
    match g {
        Goal::Checkbox => true,
        Goal::Numeric { minimum, maximum, unit } => {
            &&& (minimum is Some || maximum is Some)
            &&& !is_blank(unit@)
            &&& unit@.len() <= 40
            &&& (minimum is Some ==> bound_units(minimum) is Some)
            &&& (maximum is Some ==> bound_units(maximum) is Some)
            &&& (minimum is Some && maximum is Some ==> bound_units(minimum)->Some_0 <= bound_units(
                maximum,
            )->Some_0)
        },
        Goal::Checklist { items } => checklist_valid(items@),
    }
}

/// Evidence of the kind a goal takes.
pub open spec fn evidence_valid(e: Evidence, g: Goal) -> bool {
    match (e, g) {
        (Evidence::Checkbox { .. }, Goal::Checkbox) => true,
        (Evidence::Quantity { amount }, Goal::Numeric { .. }) => decimal_units(amount.0@) is Some,
        (Evidence::Observe, Goal::Numeric { .. }) => true,
        (Evidence::Checklist { item_id, .. }, Goal::Checklist { items }) => exists|i: int|
            0 <= i < items@.len() && #[trigger] items@[i].id@ == item_id@,
        _ => false,
    }
}

impl Decimal {
    /// A copy of this amount.
    pub fn duplicate(&self) -> (d: Decimal)
        ensures
            d == *self,
    {
        Decimal(self.0.clone())
    }
}

impl Evidence {
    /// A copy of this evidence.
    pub fn duplicate(&self) -> (e: Evidence)
        ensures
            e == *self,
    {
        match self {
            Evidence::Checkbox { complete } => Evidence::Checkbox { complete: *complete },
            Evidence::Quantity { amount } => Evidence::Quantity { amount: amount.duplicate() },
            Evidence::Checklist { item_id, complete } => Evidence::Checklist {
                item_id: item_id.clone(),
                complete: *complete,
            },
            Evidence::Observe => Evidence::Observe,
        }
    }

    #[verifier::loop_isolation(false)]
    /// Evidence must match its goal: a checkbox for a checkbox, a valid
    /// amount or an observation for a numeric goal, an existing item for a
    /// checklist.
    pub fn validate(&self, goal: &Goal) -> (r: Result<(), ErrorCode>)
        ensures
            r is Ok <==> evidence_valid(*self, *goal),
            r matches Err(e) ==> e == ErrorCode::InvalidValue,
    {
        match (self, goal) {
            (Evidence::Checkbox { .. }, Goal::Checkbox) => Ok(()),
            (Evidence::Quantity { amount }, Goal::Numeric { .. }) => match amount.units() {
                Ok(_) => Ok(()),
                Err(_) => Err(ErrorCode::InvalidValue),
            },
            (Evidence::Observe, Goal::Numeric { .. }) => Ok(()),
            (Evidence::Checklist { item_id, .. }, Goal::Checklist { items }) => {
                let mut i: usize = 0;
                while i < items.len()
                    invariant
                        i <= items@.len(),
                        forall|j: int| 0 <= j < i ==> items@[j].id@ != item_id@,
                    decreases items.len() - i,
                {
                    if str_eq(items[i].id.as_str(), item_id.as_str()) {
                        assert(items@[i as int].id@ == item_id@);
                        return Ok(());
                    }
                    i = i + 1;
                }
                Err(ErrorCode::InvalidValue)
            },
            _ => Err(ErrorCode::InvalidValue),
        }
    }
}

/// Checklist items: 1 to 100 of them, with canonical, distinct identities
/// and valid labels.
#[verifier::loop_isolation(false)]
pub fn validate_checklist(items: &[ChecklistItem]) -> (r: Result<(), ErrorCode>)
    ensures
        r is Ok <==> checklist_valid(items@),
        r matches Err(e) ==> e == ErrorCode::InvalidValue,
{
    if items.len() == 0 || items.len() > 100 {
        return Err(ErrorCode::InvalidValue);
    }
    let mut i: usize = 0;
    while i < items.len()
        invariant
            1 <= items@.len() <= 100,
            i <= items@.len(),
            forall|k: int|
                0 <= k < i ==> is_canonical_uuid(#[trigger] items@[k].id@)
                    && content_ok(items@[k].label@, Seq::<char>::empty()),
            forall|k: int, m: int|
                0 <= k < m < i ==> #[trigger] items@[k].id@ != #[trigger] items@[m].id@,
        decreases items.len() - i,
    {
        if crate::identifier(items[i].id.as_str()).is_err() {
            return Err(ErrorCode::InvalidValue);
        }
        let mut j: usize = 0;
        while j < i
            invariant
                i < items@.len(),
                j <= i,
                forall|k: int| 0 <= k < j ==> items@[k].id@ != items@[i as int].id@,
            decreases i - j,
        {
            if str_eq(items[j].id.as_str(), items[i].id.as_str()) {
                assert(items@[j as int].id@ == items@[i as int].id@);
                return Err(ErrorCode::InvalidValue);
            }
            j = j + 1;
        }
        if crate::text::blank(items[i].label.as_str())
            || items[i].label.as_str().unicode_len() > 300 {
            return Err(ErrorCode::InvalidValue);
        }
        i = i + 1;
    }
    Ok(())
}

impl Goal {
    #[verifier::loop_isolation(false)]
    /// Numeric goals need a bound, a short unit and ordered valid bounds;
    /// checklists need 1 to 100 distinct, canonical items.
    pub fn validate(&self) -> (r: Result<(), ErrorCode>)
        ensures
            r is Ok <==> goal_valid(*self),
            r matches Err(e) ==> e == ErrorCode::InvalidValue,
    {
        match self {
            Goal::Checkbox => Ok(()),
            Goal::Numeric { minimum, maximum, unit } => {
                if minimum.is_none() && maximum.is_none() {
                    return Err(ErrorCode::InvalidValue);
                }
                if crate::text::blank(unit.as_str()) || unit.as_str().unicode_len() > 40 {
                    return Err(ErrorCode::InvalidValue);
                }
                let min = match minimum {
                    Some(d) => match d.units() {
                        Ok(v) => Some(v),
                        Err(_) => return Err(ErrorCode::InvalidValue),
                    },
                    None => None,
                };
                let max = match maximum {
                    Some(d) => match d.units() {
                        Ok(v) => Some(v),
                        Err(_) => return Err(ErrorCode::InvalidValue),
                    },
                    None => None,
                };
                match (min, max) {
                    (Some(a), Some(b)) => if a <= b {
                        Ok(())
                    } else {
                        Err(ErrorCode::InvalidValue)
                    },
                    _ => Ok(()),
                }
            },
            Goal::Checklist { items } => validate_checklist(items.as_slice()),
        }
    }
}

/// The units one entry contributes to a numeric total.
pub open spec fn entry_units(e: Evidence) -> int {
    match e {
        Evidence::Quantity { amount } => match decimal_units(amount.0@) {
            Some(v) => v,
            None => 0,
        },
        _ => 0,
    }
}

/// The sum of all quantities in a stream.
pub open spec fn quantity_total(es: Seq<Evidence>) -> int
    decreases es.len(),
{
    if es.len() == 0 {
        0
    } else {
        quantity_total(es.drop_last()) + entry_units(es.last())
    }
}

/// The latest checkbox state, unchecked when nothing was recorded.
pub open spec fn last_checkbox(es: Seq<Evidence>) -> bool
    decreases es.len(),
{
    if es.len() == 0 {
        false
    } else {
        match es.last() {
            Evidence::Checkbox { complete } => complete,
            _ => last_checkbox(es.drop_last()),
        }
    }
}

/// The latest state recorded for one checklist item, if any.
pub open spec fn checklist_state(es: Seq<Evidence>, id: Seq<char>) -> Option<bool>
    decreases es.len(),
{
    if es.len() == 0 {
        None
    } else {
        match es.last() {
            Evidence::Checklist { item_id, complete } => if item_id@ == id {
                Some(complete)
            } else {
                checklist_state(es.drop_last(), id)
            },
            _ => checklist_state(es.drop_last(), id),
        }
    }
}

/// A stream that `evaluate` accepts: a valid goal, at most 10 000 entries,
/// each of the goal's kind, and a total of at most 10^18 units.
pub open spec fn entries_ok(g: Goal, es: Seq<Evidence>) -> bool {
    &&& goal_valid(g)
    &&& es.len() <= 10_000
    &&& forall|i: int| 0 <= i < es.len() ==> evidence_valid(#[trigger] es[i], g)
    &&& quantity_total(es) <= MAX_UNITS
}

/// Whether the evidence meets the goal.
pub open spec fn goal_met(g: Goal, es: Seq<Evidence>) -> bool {
    match g {
        Goal::Checkbox => last_checkbox(es),
        Goal::Checklist { items } => forall|i: int|
            0 <= i < items@.len() ==> checklist_state(es, #[trigger] items@[i].id@) == Some(true),
        Goal::Numeric { minimum, maximum, .. } => {
            &&& (minimum is Some ==> quantity_total(es) >= bound_units(minimum)->Some_0)
            &&& (maximum is Some ==> quantity_total(es) <= bound_units(maximum)->Some_0)
        },
    }
}

/// Goals whose absence of evidence after closing means the period was missed:
/// a checkbox, a checklist, or a numeric goal with only a minimum.
pub open spec fn silence_is_missed(g: Goal) -> bool {
    match g {
        Goal::Checkbox => true,
        Goal::Checklist { .. } => true,
        Goal::Numeric { minimum, maximum, .. } => minimum is Some && maximum is None,
    }
}

/// Numeric goals with a ceiling can still be exceeded while open.
pub open spec fn has_ceiling(g: Goal) -> bool {
    match g {
        Goal::Numeric { maximum, .. } => maximum is Some,
        _ => false,
    }
}

/// The outcome of a stream. An absent stream is unknown, never zero.
pub open spec fn outcome_of(g: Goal, es: Seq<Evidence>, closed: bool) -> Outcome {
    if es.len() == 0 {
        if closed && silence_is_missed(g) {
            Outcome::Missed
        } else {
            Outcome::Unknown
        }
    } else if goal_met(g, es) && !closed && has_ceiling(g) {
        Outcome::Provisional
    } else if goal_met(g, es) {
        Outcome::Complete
    } else if closed {
        Outcome::Missed
    } else {
        Outcome::Incomplete
    }
}

/// Strings in strictly increasing order.
pub open spec fn strings_sorted(s: Seq<String>) -> bool {
    forall|i: int, j: int| 0 <= i < j < s.len() ==> lex_lt(#[trigger] s[i]@, #[trigger] s[j]@)
}

/// `s` holds a string equal to `id`.
pub open spec fn has_string(s: Seq<String>, id: Seq<char>) -> bool {
    exists|i: int| 0 <= i < s.len() && #[trigger] s[i]@ == id
}

/// The progress `evaluate` reports for a valid stream: the outcome, the total
/// amount for observed numeric goals, and the checked items in order.
pub open spec fn progress_matches(p: Progress, g: Goal, es: Seq<Evidence>, closed: bool) -> bool {
    &&& p.outcome == outcome_of(g, es, closed)
    &&& if es.len() > 0 && g is Numeric {
        p.amount is Some && p.amount->Some_0.0@ == render_units(quantity_total(es) as nat)
    } else {
        p.amount is None
    }
    &&& strings_sorted(p.checked@)
    &&& forall|id: Seq<char>| has_string(p.checked@, id) <==> checklist_state(es, id) == Some(true)
}

proof fn lemma_quantity_total_nonneg(es: Seq<Evidence>)
    ensures
        quantity_total(es) >= 0,
    decreases es.len(),
{
    if es.len() > 0 {
        lemma_quantity_total_nonneg(es.drop_last());
        match es.last() {
            Evidence::Quantity { amount } => {
                if let Some(v) = decimal_units(amount.0@) {
                    crate::tasks::decimal::lemma_units_nonneg(amount.0@);
                }
            },
            _ => {},
        }
    }
}

/// Totals only grow along a stream.
proof fn lemma_quantity_total_prefix(es: Seq<Evidence>, k: int)
    requires
        0 <= k <= es.len(),
    ensures
        quantity_total(es.take(k)) <= quantity_total(es),
    decreases es.len() - k,
{
    if k < es.len() {
        lemma_quantity_total_prefix(es, k + 1);
        assert(es.take(k + 1).drop_last() =~= es.take(k));
        let e = es.take(k + 1).last();
        match e {
            Evidence::Quantity { amount } => {
                if let Some(v) = decimal_units(amount.0@) {
                    crate::tasks::decimal::lemma_units_nonneg(amount.0@);
                }
            },
            _ => {},
        }
    } else {
        assert(es.take(k) =~= es);
    }
}

/// Some position of `id` in `ids`, when it occurs there.
pub open spec fn position(ids: Seq<String>, id: Seq<char>) -> int {
    choose|w: int| 0 <= w < ids.len() && #[trigger] ids[w]@ == id
}

/// The value kept for `id` in parallel, strictly sorted key and value lists.
pub open spec fn lookup(ids: Seq<String>, vals: Seq<bool>, id: Seq<char>) -> Option<bool> {
    if has_string(ids, id) {
        Some(vals[position(ids, id)])
    } else {
        None
    }
}

proof fn lemma_sorted_distinct(ids: Seq<String>, a: int, b: int)
    requires
        strings_sorted(ids),
        0 <= a < ids.len(),
        0 <= b < ids.len(),
        a != b,
    ensures
        ids[a]@ != ids[b]@,
{
    if a < b {
        assert(lex_lt(ids[a]@, ids[b]@));
    } else {
        assert(lex_lt(ids[b]@, ids[a]@));
    }
    crate::text::lemma_lex_irreflexive(ids[a]@);
}

proof fn lemma_lookup_at(ids: Seq<String>, vals: Seq<bool>, m: int)
    requires
        strings_sorted(ids),
        ids.len() == vals.len(),
        0 <= m < ids.len(),
    ensures
        lookup(ids, vals, ids[m]@) == Some(vals[m]),
{
    let id = ids[m]@;
    assert(has_string(ids, id));
    let q = position(ids, id);
    assert(0 <= q < ids.len() && ids[q]@ == id);
    if q != m {
        lemma_sorted_distinct(ids, q, m);
    }
    assert(q == m);
    assert(lookup(ids, vals, id) == Some(vals[q]));
}

/// Records `v` as the value of `item` in the sorted lists.
fn set_item(ids: &mut Vec<String>, vals: &mut Vec<bool>, item: &String, v: bool)
    requires
        strings_sorted(old(ids)@),
        old(ids)@.len() == old(vals)@.len(),
    ensures
        strings_sorted(final(ids)@),
        final(ids)@.len() == final(vals)@.len(),
        forall|id: Seq<char>|
            #[trigger] lookup(final(ids)@, final(vals)@, id) == if id == item@ {
                Some(v)
            } else {
                lookup(old(ids)@, old(vals)@, id)
            },
{
    let ghost before_ids = ids@;
    let ghost before_vals = vals@;
    let mut p: usize = 0;
    while p < ids.len() && crate::text::str_less(ids[p].as_str(), item.as_str())
        invariant
            p <= ids@.len(),
            ids@ == before_ids,
            forall|m: int| 0 <= m < p ==> lex_lt(#[trigger] ids@[m]@, item@),
        decreases ids.len() - p,
    {
        p = p + 1;
    }
    if p < ids.len() && str_eq(ids[p].as_str(), item.as_str()) {
        vals.set(p, v);
        proof {
            assert forall|id: Seq<char>|
                #[trigger] lookup(ids@, vals@, id) == if id == item@ {
                    Some(v)
                } else {
                    lookup(before_ids, before_vals, id)
                } by {
                if id == item@ {
                    lemma_lookup_at(ids@, vals@, p as int);
                } else if exists|m: int| 0 <= m < ids@.len() && #[trigger] ids@[m]@ == id {
                    let m = choose|m: int| 0 <= m < ids@.len() && #[trigger] ids@[m]@ == id;
                    lemma_lookup_at(ids@, vals@, m);
                    lemma_lookup_at(before_ids, before_vals, m);
                }
            }
        }
    } else {
        proof {
            if p < ids.len() {
                crate::text::lemma_lex_trichotomy(ids@[p as int]@, item@);
            }
        }
        ids.insert(p, item.clone());
        vals.insert(p, v);
        proof {
            assert forall|a: int, b: int| 0 <= a < b < ids@.len() implies lex_lt(
                #[trigger] ids@[a]@,
                #[trigger] ids@[b]@,
            ) by {
                if b < p {
                    assert(ids@[a] == before_ids[a] && ids@[b] == before_ids[b]);
                } else if b == p {
                    assert(ids@[a] == before_ids[a]);
                } else if a == p {
                    assert(ids@[b] == before_ids[b - 1]);
                    if b - 1 > p {
                        crate::text::lemma_lex_transitive(
                            item@,
                            before_ids[p as int]@,
                            before_ids[b - 1]@,
                        );
                    }
                } else if a < p {
                    assert(ids@[a] == before_ids[a] && ids@[b] == before_ids[b - 1]);
                    if b - 1 > p {
                        crate::text::lemma_lex_transitive(item@, before_ids[p as int]@, before_ids[b - 1]@);
                    }
                    crate::text::lemma_lex_transitive(before_ids[a]@, item@, before_ids[b - 1]@);
                } else {
                    assert(ids@[a] == before_ids[a - 1] && ids@[b] == before_ids[b - 1]);
                }
            }
            assert forall|id: Seq<char>|
                #[trigger] lookup(ids@, vals@, id) == if id == item@ {
                    Some(v)
                } else {
                    lookup(before_ids, before_vals, id)
                } by {
                assert(ids@[p as int] == *item);
                if id == item@ {
                    lemma_lookup_at(ids@, vals@, p as int);
                } else {
                    if exists|m: int| 0 <= m < ids@.len() && #[trigger] ids@[m]@ == id {
                        let m = choose|m: int| 0 <= m < ids@.len() && #[trigger] ids@[m]@ == id;
                        lemma_lookup_at(ids@, vals@, m);
                        if m < p {
                            assert(ids@[m] == before_ids[m]);
                            lemma_lookup_at(before_ids, before_vals, m);
                        } else {
                            assert(m != p);
                            assert(ids@[m] == before_ids[m - 1]);
                            lemma_lookup_at(before_ids, before_vals, m - 1);
                        }
                    } else if exists|m: int| 0 <= m < before_ids.len() && #[trigger] before_ids[m]@ == id {
                        let m = choose|m: int| 0 <= m < before_ids.len() && #[trigger] before_ids[m]@ == id;
                        if m < p {
                            assert(ids@[m] == before_ids[m]);
                        } else {
                            assert(ids@[m + 1] == before_ids[m]);
                        }
                    }
                }
            }
        }
    }
}

/// Checklist states agree with the evidence once one more entry is applied.
proof fn lemma_checklist_step(es: Seq<Evidence>, k: int, id: Seq<char>)
    requires
        0 <= k < es.len(),
    ensures
        checklist_state(es.take(k + 1), id) == match es[k] {
            Evidence::Checklist { item_id, complete } => if item_id@ == id {
                Some(complete)
            } else {
                checklist_state(es.take(k), id)
            },
            _ => checklist_state(es.take(k), id),
        },
{
    assert(es.take(k + 1).drop_last() =~= es.take(k));
}

/// Evaluates a stream of evidence against its goal. Evidence must already be
/// authorised, ordered and have explicit corrections applied.
pub fn evaluate(goal: &Goal, entries: &[Evidence], closed: bool) -> (r: Result<Progress, ErrorCode>)
    ensures
        r is Ok <==> entries_ok(*goal, entries@),
        r matches Ok(p) ==> progress_matches(p, *goal, entries@, closed),
        r matches Err(e) ==> e == ErrorCode::InvalidValue,
{
    if goal.validate().is_err() {
        return Err(ErrorCode::InvalidValue);
    }
    if entries.len() > 10_000 {
        return Err(ErrorCode::InvalidValue);
    }
    let ghost es = entries@;
    let mut quantity: i128 = 0;
    let mut checkbox = false;
    let mut ids: Vec<String> = Vec::new();
    let mut vals: Vec<bool> = Vec::new();
    let mut k: usize = 0;
    proof {
        assert(es.take(0) =~= Seq::<Evidence>::empty());
    }
    while k < entries.len()
        invariant
            es == entries@,
            goal_valid(*goal),
            k <= es.len() <= 10_000,
            forall|i: int| 0 <= i < k ==> evidence_valid(#[trigger] es[i], *goal),
            quantity == quantity_total(es.take(k as int)),
            0 <= quantity <= MAX_UNITS,
            checkbox == last_checkbox(es.take(k as int)),
            ids@.len() == vals@.len(),
            strings_sorted(ids@),
            forall|id: Seq<char>|
                #[trigger] lookup(ids@, vals@, id) == checklist_state(es.take(k as int), id),
        decreases entries.len() - k,
    {
        let ghost prev = es.take(k as int);
        let ghost next = es.take(k + 1);
        proof {
            assert(next.drop_last() =~= prev);
            assert(next.last() == es[k as int]);
        }
        if entries[k].validate(goal).is_err() {
            return Err(ErrorCode::InvalidValue);
        }
        match &entries[k] {
            Evidence::Checkbox { complete } => {
                checkbox = *complete;
            },
            Evidence::Quantity { amount } => {
                let v = match amount.units() {
                    Ok(v) => v,
                    Err(_) => return Err(ErrorCode::InvalidValue),
                };
                proof {
                    crate::tasks::decimal::lemma_units_nonneg(amount.0@);
                }
                quantity = quantity + v;
                if quantity > MAX_UNITS {
                    proof {
                        lemma_quantity_total_prefix(es, k + 1);
                    }
                    return Err(ErrorCode::InvalidValue);
                }
            },
            Evidence::Checklist { item_id, complete } => {
                set_item(&mut ids, &mut vals, item_id, *complete);
            },
            Evidence::Observe => {},
        }
        proof {
            assert forall|id: Seq<char>| #[trigger] lookup(ids@, vals@, id) == checklist_state(next, id) by {
                lemma_checklist_step(es, k as int, id);
            }
        }
        k = k + 1;
    }
    proof {
        assert(es.take(es.len() as int) =~= es);
    }
    let met = match goal {
        Goal::Checkbox => checkbox,
        Goal::Checklist { items } => {
            let mut all = true;
            let mut i: usize = 0;
            while i < items.len()
                invariant
                    es == entries@,
                    i <= items@.len(),
                    ids@.len() == vals@.len(),
                    strings_sorted(ids@),
                    forall|id: Seq<char>| #[trigger] lookup(ids@, vals@, id) == checklist_state(es, id),
                    all == forall|j: int|
                        0 <= j < i ==> checklist_state(es, #[trigger] items@[j].id@) == Some(true),
                decreases items.len() - i,
            {
                let mut found = false;
                let mut m: usize = 0;
                while m < ids.len()
                    invariant
                        m <= ids@.len(),
                        ids@.len() == vals@.len(),
                        strings_sorted(ids@),
                        i < items@.len(),
                        found == exists|q: int|
                            0 <= q < m && #[trigger] ids@[q]@ == items@[i as int].id@ && vals@[q],
                    decreases ids.len() - m,
                {
                    if vals[m] && str_eq(ids[m].as_str(), items[i].id.as_str()) {
                        found = true;
                    }
                    m = m + 1;
                }
                proof {
                    let id = items@[i as int].id@;
                    if found {
                        let q = choose|q: int| 0 <= q < m && #[trigger] ids@[q]@ == id && vals@[q];
                        lemma_lookup_at(ids@, vals@, q);
                        assert(lookup(ids@, vals@, id) == Some(true));
                    } else if exists|q: int| 0 <= q < ids@.len() && #[trigger] ids@[q]@ == id {
                        let q = choose|q: int| 0 <= q < ids@.len() && #[trigger] ids@[q]@ == id;
                        lemma_lookup_at(ids@, vals@, q);
                        assert(lookup(ids@, vals@, id) != Some(true));
                    } else {
                        assert(lookup(ids@, vals@, id) == None::<bool>);
                    }
                }
                all = all && found;
                i = i + 1;
            }
            all
        },
        Goal::Numeric { minimum, maximum, .. } => {
            let lo = match minimum {
                Some(d) => match d.units() {
                    Ok(v) => quantity >= v,
                    Err(_) => return Err(ErrorCode::InvalidValue),
                },
                None => true,
            };
            let hi = match maximum {
                Some(d) => match d.units() {
                    Ok(v) => quantity <= v,
                    Err(_) => return Err(ErrorCode::InvalidValue),
                },
                None => true,
            };
            lo && hi
        },
    };
    let observed = entries.len() > 0;
    let missed_when_silent = match goal {
        Goal::Checkbox => true,
        Goal::Checklist { .. } => true,
        Goal::Numeric { minimum, maximum, .. } => minimum.is_some() && maximum.is_none(),
    };
    let ceiling = match goal {
        Goal::Numeric { maximum, .. } => maximum.is_some(),
        _ => false,
    };
    let outcome = if !observed {
        if closed && missed_when_silent {
            Outcome::Missed
        } else {
            Outcome::Unknown
        }
    } else if met && !closed && ceiling {
        Outcome::Provisional
    } else if met {
        Outcome::Complete
    } else if closed {
        Outcome::Missed
    } else {
        Outcome::Incomplete
    };
    let numeric = match goal {
        Goal::Numeric { .. } => true,
        _ => false,
    };
    let amount = if observed && numeric {
        Some(Decimal::from_units(quantity))
    } else {
        None
    };
    // The checked items, in the order the item lists keep them.
    let mut checked: Vec<String> = Vec::new();
    let ghost mut origin: Seq<int> = Seq::empty();
    let mut m: usize = 0;
    while m < ids.len()
        invariant
            m <= ids@.len(),
            ids@.len() == vals@.len(),
            strings_sorted(ids@),
            origin.len() == checked@.len(),
            forall|a: int| 0 <= a < origin.len() ==> 0 <= #[trigger] origin[a] < m,
            forall|a: int, b: int|
                0 <= a < b < origin.len() ==> #[trigger] origin[a] < #[trigger] origin[b],
            forall|a: int|
                0 <= a < origin.len() ==> #[trigger] checked@[a] == ids@[origin[a]] && vals@[origin[a]],
            forall|q: int| 0 <= q < m && vals@[q] ==> has_string(checked@, #[trigger] ids@[q]@),
        decreases ids.len() - m,
    {
        if vals[m] {
            let ghost before = checked@;
            let ghost before_origin = origin;
            checked.push(ids[m].clone());
            proof {
                origin = origin.push(m as int);
                assert(checked@[before.len() as int] == ids@[m as int]);
                assert forall|a: int| 0 <= a < origin.len() implies #[trigger] checked@[a] == ids@[origin[a]]
                    && vals@[origin[a]] by {
                    if a < before.len() {
                        assert(checked@[a] == before[a]);
                        assert(origin[a] == before_origin[a]);
                    }
                }
                assert forall|q: int| 0 <= q < m + 1 && vals@[q] implies has_string(
                    checked@,
                    #[trigger] ids@[q]@,
                ) by {
                    if q < m {
                        let a = choose|a: int| 0 <= a < before.len() && #[trigger] before[a]@ == ids@[q]@;
                        assert(checked@[a] == before[a]);
                    } else {
                        assert(checked@[before.len() as int]@ == ids@[q]@);
                    }
                }
            }
        }
        m = m + 1;
    }
    proof {
        assert forall|a: int, b: int| 0 <= a < b < checked@.len() implies lex_lt(
            #[trigger] checked@[a]@,
            #[trigger] checked@[b]@,
        ) by {
            assert(origin[a] < origin[b]);
            assert(checked@[a] == ids@[origin[a]]);
            assert(checked@[b] == ids@[origin[b]]);
        }
        assert forall|id: Seq<char>| has_string(checked@, id) <==> checklist_state(es, id) == Some(
            true,
        ) by {
            assert(lookup(ids@, vals@, id) == checklist_state(es, id));
            if has_string(checked@, id) {
                let a = choose|a: int| 0 <= a < checked@.len() && #[trigger] checked@[a]@ == id;
                assert(checked@[a] == ids@[origin[a]] && vals@[origin[a]]);
                lemma_lookup_at(ids@, vals@, origin[a]);
            }
            if checklist_state(es, id) == Some(true) {
                let q = choose|q: int| 0 <= q < ids@.len() && #[trigger] ids@[q]@ == id;
                lemma_lookup_at(ids@, vals@, q);
                assert(vals@[q]);
            }
        }
    }
    Ok(Progress { outcome, amount, checked })
}

/// The result of `Anyone` participation: the first visible stream that
/// completes the goal decides; errors surface in stream order; without a
/// visible completion the aggregate stays unknown.
pub open spec fn anyone_outcome(g: Goal, streams: Seq<Option<Vec<Evidence>>>, closed: bool) -> Result<
    Outcome,
    ErrorCode,
>
    decreases streams.len(),
{
    if streams.len() == 0 {
        Ok(Outcome::Unknown)
    } else {
        match streams[0] {
            None => anyone_outcome(g, streams.drop_first(), closed),
            Some(es) => if !entries_ok(g, es@) {
                Err(ErrorCode::InvalidValue)
            } else if outcome_of(g, es@, closed) == Outcome::Complete {
                Ok(Outcome::Complete)
            } else {
                anyone_outcome(g, streams.drop_first(), closed)
            },
        }
    }
}

/// All entries of all streams, in stream order (hidden streams add nothing).
pub open spec fn pooled_entries(streams: Seq<Option<Vec<Evidence>>>) -> Seq<Evidence>
    decreases streams.len(),
{
    if streams.len() == 0 {
        Seq::<Evidence>::empty()
    } else {
        pooled_entries(streams.drop_last()) + match streams.last() {
            Some(es) => es@,
            None => Seq::<Evidence>::empty(),
        }
    }
}

/// The entries of a visible stream.
pub open spec fn stream_entries(s: Option<Vec<Evidence>>) -> Seq<Evidence> {
    match s {
        Some(es) => es@,
        None => Seq::<Evidence>::empty(),
    }
}

/// The outcome of one visible stream.
pub open spec fn stream_outcome(g: Goal, s: Option<Vec<Evidence>>, closed: bool) -> Outcome {
    outcome_of(g, stream_entries(s), closed)
}

/// The aggregate outcome over participant streams; `None` marks a stream the
/// reader cannot see.
pub open spec fn aggregate_outcome(
    g: Goal,
    participation: Participation,
    streams: Seq<Option<Vec<Evidence>>>,
    closed: bool,
) -> Result<Outcome, ErrorCode> {
    if participation == Participation::Anyone {
        anyone_outcome(g, streams, closed)
    } else if streams.len() == 0 || exists|i: int| 0 <= i < streams.len() && #[trigger] streams[i] is None {
        Ok(Outcome::Unknown)
    } else if participation == Participation::Pooled {
        if !(g is Numeric) {
            Err(ErrorCode::InvalidValue)
        } else if exists|i: int| 0 <= i < streams.len() && #[trigger] stream_entries(streams[i]).len() == 0 {
            Ok(Outcome::Unknown)
        } else if !entries_ok(g, pooled_entries(streams)) {
            Err(ErrorCode::InvalidValue)
        } else {
            Ok(outcome_of(g, pooled_entries(streams), closed))
        }
    } else if !(forall|i: int| 0 <= i < streams.len() ==> entries_ok(g, #[trigger] stream_entries(streams[i]))) {
        Err(ErrorCode::InvalidValue)
    } else if exists|i: int| 0 <= i < streams.len() && #[trigger] stream_outcome(g, streams[i], closed) == Outcome::Unknown {
        Ok(Outcome::Unknown)
    } else if forall|i: int| 0 <= i < streams.len() ==> #[trigger] stream_outcome(g, streams[i], closed) == Outcome::Complete {
        Ok(Outcome::Complete)
    } else if !closed && exists|i: int| 0 <= i < streams.len() && #[trigger] stream_outcome(g, streams[i], closed) == Outcome::Provisional {
        Ok(Outcome::Provisional)
    } else if closed {
        Ok(Outcome::Missed)
    } else {
        Ok(Outcome::Incomplete)
    }
}

/// Aggregates participant streams. Required-participant aggregates need
/// every stream; an `Anyone` goal is proven by one visible completion, and
/// hidden participation never changes that answer.
#[verifier::loop_isolation(false)]
pub fn aggregate(
    goal: &Goal,
    participation: Participation,
    streams: &[Option<Vec<Evidence>>],
    closed: bool,
) -> (r: Result<Outcome, ErrorCode>)
    ensures
        r == aggregate_outcome(*goal, participation, streams@, closed),
{
    let ghost ss = streams@;
    if participation == Participation::Anyone {
        let mut i: usize = 0;
        proof {
            assert(ss.skip(0) =~= ss);
        }
        while i < streams.len()
            invariant
                i <= ss.len(),
                anyone_outcome(*goal, ss, closed) == anyone_outcome(*goal, ss.skip(i as int), closed),
            decreases streams.len() - i,
        {
            proof {
                assert(ss.skip(i as int).drop_first() =~= ss.skip(i + 1));
                assert(ss.skip(i as int)[0] == ss[i as int]);
            }
            match &streams[i] {
                Some(entries) => {
                    match evaluate(goal, entries.as_slice(), closed) {
                        Ok(p) => {
                            if p.outcome == Outcome::Complete {
                                return Ok(Outcome::Complete);
                            }
                        },
                        Err(e) => return Err(e),
                    }
                },
                None => {},
            }
            i = i + 1;
        }
        proof {
            assert(ss.skip(i as int).len() == 0);
        }
        return Ok(Outcome::Unknown);
    }
    let mut i: usize = 0;
    while i < streams.len()
        invariant
            i <= ss.len(),
            forall|j: int| 0 <= j < i ==> #[trigger] ss[j] is Some,
        decreases streams.len() - i,
    {
        if streams[i].is_none() {
            return Ok(Outcome::Unknown);
        }
        i = i + 1;
    }
    if streams.len() == 0 {
        return Ok(Outcome::Unknown);
    }
    if participation == Participation::Pooled {
        match goal {
            Goal::Numeric { .. } => {},
            _ => return Err(ErrorCode::InvalidValue),
        }
        let mut i: usize = 0;
        while i < streams.len()
            invariant
                i <= ss.len(),
                forall|j: int| 0 <= j < i ==> #[trigger] stream_entries(ss[j]).len() != 0,
            decreases streams.len() - i,
        {
            match &streams[i] {
                Some(entries) => {
                    if entries.len() == 0 {
                        assert(stream_entries(ss[i as int]).len() == 0);
                        return Ok(Outcome::Unknown);
                    }
                },
                None => {},
            }
            i = i + 1;
        }
        let mut all: Vec<Evidence> = Vec::new();
        let mut i: usize = 0;
        proof {
            assert(ss.take(0) =~= Seq::<Option<Vec<Evidence>>>::empty());
        }
        while i < streams.len()
            invariant
                i <= ss.len(),
                all@ == pooled_entries(ss.take(i as int)),
            decreases streams.len() - i,
        {
            proof {
                assert(ss.take(i + 1).drop_last() =~= ss.take(i as int));
                assert(ss.take(i + 1).last() == ss[i as int]);
            }
            match &streams[i] {
                Some(entries) => {
                    let ghost base = all@;
                    let mut j: usize = 0;
                    while j < entries.len()
                        invariant
                            j <= entries@.len(),
                            all@ == base + entries@.take(j as int),
                        decreases entries.len() - j,
                    {
                        all.push(entries[j].duplicate());
                        j = j + 1;
                        assert(all@ =~= base + entries@.take(j as int));
                    }
                    assert(entries@.take(entries@.len() as int) =~= entries@);
                },
                None => {},
            }
            i = i + 1;
        }
        proof {
            assert(ss.take(ss.len() as int) =~= ss);
        }
        return match evaluate(goal, all.as_slice(), closed) {
            Ok(p) => Ok(p.outcome),
            Err(e) => Err(e),
        };
    }
    let mut outcomes: Vec<Outcome> = Vec::new();
    let mut i: usize = 0;
    while i < streams.len()
        invariant
            i <= ss.len(),
            outcomes@.len() == i,
            forall|j: int| 0 <= j < i ==> entries_ok(*goal, #[trigger] stream_entries(ss[j])),
            forall|j: int| 0 <= j < i ==> #[trigger] outcomes@[j] == stream_outcome(*goal, ss[j], closed),
        decreases streams.len() - i,
    {
        match &streams[i] {
            Some(entries) => match evaluate(goal, entries.as_slice(), closed) {
                Ok(p) => outcomes.push(p.outcome),
                Err(e) => {
                    assert(!entries_ok(*goal, stream_entries(ss[i as int])));
                    return Err(e);
                },
            },
            None => {
                return Ok(Outcome::Unknown);
            },
        }
        i = i + 1;
    }
    let mut unknown = false;
    let mut all_complete = true;
    let mut provisional = false;
    let mut i: usize = 0;
    while i < outcomes.len()
        invariant
            i <= outcomes@.len(),
            outcomes@.len() == ss.len(),
            unknown == exists|j: int| 0 <= j < i && #[trigger] outcomes@[j] == Outcome::Unknown,
            all_complete == forall|j: int| 0 <= j < i ==> #[trigger] outcomes@[j] == Outcome::Complete,
            provisional == exists|j: int| 0 <= j < i && #[trigger] outcomes@[j] == Outcome::Provisional,
        decreases outcomes.len() - i,
    {
        let o = outcomes[i];
        unknown = unknown || o == Outcome::Unknown;
        all_complete = all_complete && o == Outcome::Complete;
        provisional = provisional || o == Outcome::Provisional;
        i = i + 1;
    }
    proof {
        assert(unknown == exists|j: int| 0 <= j < ss.len() && #[trigger] stream_outcome(*goal, ss[j], closed) == Outcome::Unknown) by {
            if unknown {
                let j = choose|j: int| 0 <= j < i && #[trigger] outcomes@[j] == Outcome::Unknown;
                assert(stream_outcome(*goal, ss[j], closed) == Outcome::Unknown);
            } else {
                assert forall|j: int| 0 <= j < ss.len() implies #[trigger] stream_outcome(*goal, ss[j], closed) != Outcome::Unknown by {
                    assert(outcomes@[j] == stream_outcome(*goal, ss[j], closed));
                }
            }
        }
        assert(all_complete == forall|j: int| 0 <= j < ss.len() ==> #[trigger] stream_outcome(*goal, ss[j], closed) == Outcome::Complete) by {
            if !all_complete {
                let j = choose|j: int| 0 <= j < i && !(#[trigger] outcomes@[j] == Outcome::Complete);
                assert(stream_outcome(*goal, ss[j], closed) != Outcome::Complete);
            } else {
                assert forall|j: int| 0 <= j < ss.len() implies #[trigger] stream_outcome(*goal, ss[j], closed) == Outcome::Complete by {
                    assert(outcomes@[j] == stream_outcome(*goal, ss[j], closed));
                }
            }
        }
        assert(provisional == exists|j: int| 0 <= j < ss.len() && #[trigger] stream_outcome(*goal, ss[j], closed) == Outcome::Provisional) by {
            if provisional {
                let j = choose|j: int| 0 <= j < i && #[trigger] outcomes@[j] == Outcome::Provisional;
                assert(stream_outcome(*goal, ss[j], closed) == Outcome::Provisional);
            } else {
                assert forall|j: int| 0 <= j < ss.len() implies #[trigger] stream_outcome(*goal, ss[j], closed) != Outcome::Provisional by {
                    assert(outcomes@[j] == stream_outcome(*goal, ss[j], closed));
                }
            }
        }
    }
    if unknown {
        Ok(Outcome::Unknown)
    } else if all_complete {
        Ok(Outcome::Complete)
    } else if provisional && !closed {
        Ok(Outcome::Provisional)
    } else if closed {
        Ok(Outcome::Missed)
    } else {
        Ok(Outcome::Incomplete)
    }
}

/// Current and longest runs of completed periods.
pub struct Streak {
    pub current: Option<u32>,
    pub longest: Option<u32>,
}

/// The current and longest runs over ordered periods, each with whether its
/// snapshotted policy lets an exclusion bridge the run; `None` once any
/// period is unknown. Open periods neither extend nor break a run.
pub open spec fn streak_runs(periods: Seq<(Outcome, bool)>) -> Option<(nat, nat)>
    decreases periods.len(),
{
    if periods.len() == 0 {
        Some((0, 0))
    } else {
        match streak_runs(periods.drop_last()) {
            None => None,
            Some((current, longest)) => {
                let (outcome, allow_exclusion) = periods.last();
                match outcome {
                    Outcome::Unknown => None,
                    Outcome::Complete => Some(
                        (
                            current + 1,
                            if longest >= current + 1 {
                                longest
                            } else {
                                current + 1
                            },
                        ),
                    ),
                    Outcome::Excluded => if allow_exclusion {
                        Some((current, longest))
                    } else {
                        Some((0, longest))
                    },
                    Outcome::Provisional => Some((current, longest)),
                    Outcome::Incomplete => Some((current, longest)),
                    Outcome::Missed => Some((0, longest)),
                }
            },
        }
    }
}

/// Runs never exceed the number of periods, and the longest run is at least
/// the current one.
pub proof fn lemma_streak_runs_bounds(periods: Seq<(Outcome, bool)>)
    ensures
        streak_runs(periods) matches Some((c, l)) ==> c <= l <= periods.len(),
    decreases periods.len(),
{
    if periods.len() > 0 {
        lemma_streak_runs_bounds(periods.drop_last());
    }
}

/// The streak over ordered intended periods, including missed and covered
/// periods. Exclusions only bridge a streak when the period's policy permits.
pub fn streak(periods: &[(Outcome, bool)]) -> (s: Streak)
    requires
        periods@.len() <= u32::MAX,
    ensures
        match streak_runs(periods@) {
            Some((c, l)) => s.current == Some(c as u32) && s.longest == Some(l as u32),
            None => s.current is None && s.longest is None,
        },
{
    let ghost ps = periods@;
    let mut current: u32 = 0;
    let mut longest: u32 = 0;
    let mut k: usize = 0;
    proof {
        assert(ps.take(0) =~= Seq::<(Outcome, bool)>::empty());
    }
    while k < periods.len()
        invariant
            ps == periods@,
            ps.len() <= u32::MAX,
            k <= ps.len(),
            streak_runs(ps.take(k as int)) == Some((current as nat, longest as nat)),
            current <= longest <= k,
        decreases periods.len() - k,
    {
        proof {
            assert(ps.take(k + 1).drop_last() =~= ps.take(k as int));
            assert(ps.take(k + 1).last() == ps[k as int]);
        }
        let (outcome, allow_exclusion) = periods[k];
        match outcome {
            Outcome::Unknown => {
                proof {
                    lemma_streak_unknown_absorbs(ps, k as int + 1);
                }
                return Streak { current: None, longest: None };
            },
            Outcome::Complete => {
                current = current + 1;
                if longest < current {
                    longest = current;
                }
            },
            Outcome::Excluded => {
                if !allow_exclusion {
                    current = 0;
                }
            },
            Outcome::Provisional => {},
            Outcome::Incomplete => {},
            Outcome::Missed => {
                current = 0;
            },
        }
        k = k + 1;
    }
    proof {
        assert(ps.take(ps.len() as int) =~= ps);
    }
    Streak { current: Some(current), longest: Some(longest) }
}

/// Once a prefix is unknown, the whole run is unknown.
proof fn lemma_streak_unknown_absorbs(periods: Seq<(Outcome, bool)>, k: int)
    requires
        0 <= k <= periods.len(),
        streak_runs(periods.take(k)) is None,
    ensures
        streak_runs(periods) is None,
    decreases periods.len() - k,
{
    if k < periods.len() {
        assert(periods.take(k + 1).drop_last() =~= periods.take(k));
        lemma_streak_unknown_absorbs(periods, k + 1);
    } else {
        assert(periods.take(k) =~= periods);
    }
}

/// An absent stream is unknown, never zero: with no evidence an open period
/// is unknown and reports no amount; once closed it is missed only for goals
/// whose silence means failure.
pub proof fn law_absent_stream_is_unknown(g: Goal, closed: bool)
    ensures
        outcome_of(g, Seq::<Evidence>::empty(), false) == Outcome::Unknown,
        outcome_of(g, Seq::<Evidence>::empty(), true) == if silence_is_missed(g) {
            Outcome::Missed
        } else {
            Outcome::Unknown
        },
        entries_ok(g, Seq::<Evidence>::empty()) == goal_valid(g),
{
    assert(quantity_total(Seq::<Evidence>::empty()) == 0);
}

/// A provisional outcome only arises while a period with a ceiling is open.
pub proof fn law_provisional_needs_open_ceiling(g: Goal, es: Seq<Evidence>, closed: bool)
    ensures
        outcome_of(g, es, closed) == Outcome::Provisional ==> !closed && has_ceiling(g),
{
}

/// Hidden participation never changes an `Anyone` aggregate: inserting a
/// stream the reader cannot see, anywhere, leaves the result as it was.
pub proof fn law_hidden_stream_does_not_change_anyone(
    g: Goal,
    streams: Seq<Option<Vec<Evidence>>>,
    i: int,
    closed: bool,
)
    requires
        0 <= i <= streams.len(),
    ensures
        anyone_outcome(g, streams.insert(i, None), closed) == anyone_outcome(g, streams, closed),
    decreases i,
{
    let t = streams.insert(i, None);
    if i == 0 {
        assert(t.drop_first() =~= streams);
    } else {
        assert(t[0] == streams[0]);
        assert(t.drop_first() =~= streams.drop_first().insert(i - 1, None));
        law_hidden_stream_does_not_change_anyone(g, streams.drop_first(), i - 1, closed);
    }
}

/// One visible completion proves an `Anyone` goal, provided the visible
/// streams before it are well formed.
pub proof fn law_visible_completion_proves_anyone(
    g: Goal,
    streams: Seq<Option<Vec<Evidence>>>,
    i: int,
    closed: bool,
)
    requires
        0 <= i < streams.len(),
        streams[i] is Some,
        entries_ok(g, stream_entries(streams[i])),
        stream_outcome(g, streams[i], closed) == Outcome::Complete,
        forall|j: int| 0 <= j < i && #[trigger] streams[j] is Some ==> entries_ok(g, stream_entries(streams[j])),
    ensures
        anyone_outcome(g, streams, closed) == Ok::<Outcome, ErrorCode>(Outcome::Complete),
        aggregate_outcome(g, Participation::Anyone, streams, closed) == Ok::<Outcome, ErrorCode>(
            Outcome::Complete,
        ),
    decreases i,
{
    if i > 0 {
        let rest = streams.drop_first();
        assert forall|j: int| 0 <= j < i - 1 && #[trigger] rest[j] is Some implies entries_ok(g, stream_entries(rest[j])) by {
            assert(rest[j] == streams[j + 1]);
        }
        assert(rest[i - 1] == streams[i]);
        law_visible_completion_proves_anyone(g, rest, i - 1, closed);
        if streams[0] is Some {
            assert(entries_ok(g, stream_entries(streams[0])));
        }
    }
}

/// Required-participant aggregates need every stream: when any participant's
/// stream is hidden, the aggregate is unknown.
pub proof fn law_required_streams_need_every_stream(
    g: Goal,
    participation: Participation,
    streams: Seq<Option<Vec<Evidence>>>,
    i: int,
    closed: bool,
)
    requires
        participation != Participation::Anyone,
        0 <= i < streams.len(),
        streams[i] is None,
    ensures
        aggregate_outcome(g, participation, streams, closed) == Ok::<Outcome, ErrorCode>(
            Outcome::Unknown,
        ),
{
}

/// An unknown period anywhere makes the whole streak unknown.
pub proof fn law_streak_unknown_anywhere(periods: Seq<(Outcome, bool)>, i: int)
    requires
        0 <= i < periods.len(),
        periods[i].0 == Outcome::Unknown,
    ensures
        streak_runs(periods) is None,
{
    assert(periods.take(i + 1).drop_last() =~= periods.take(i));
    assert(periods.take(i + 1).last() == periods[i]);
    lemma_streak_unknown_absorbs(periods, i + 1);
}

/// A completed period extends the current run by one and the longest run
/// never falls below the current one.
pub proof fn law_streak_completion_extends(periods: Seq<(Outcome, bool)>, allow: bool)
    ensures
        streak_runs(periods) matches Some((c, l)) ==> streak_runs(periods.push((Outcome::Complete, allow)))
            == Some((c + 1, if l >= c + 1 { l } else { c + 1 })),
        streak_runs(periods) matches Some((c, l)) ==> c <= l,
{
    assert(periods.push((Outcome::Complete, allow)).drop_last() =~= periods);
    lemma_streak_runs_bounds(periods);
}

/// Exclusions bridge a run only when the period's policy permits them;
/// otherwise they break it like a missed period.
pub proof fn law_exclusion_bridges_only_when_allowed(periods: Seq<(Outcome, bool)>)
    ensures
        streak_runs(periods) matches Some((c, l)) ==> streak_runs(periods.push((Outcome::Excluded, true)))
            == Some((c, l)),
        streak_runs(periods) matches Some((c, l)) ==> streak_runs(periods.push((Outcome::Excluded, false)))
            == Some((0nat, l)),
        streak_runs(periods.push((Outcome::Excluded, false))) == streak_runs(periods.push((Outcome::Missed, false))),
{
    assert(periods.push((Outcome::Excluded, true)).drop_last() =~= periods);
    assert(periods.push((Outcome::Excluded, false)).drop_last() =~= periods);
    assert(periods.push((Outcome::Missed, false)).drop_last() =~= periods);
}


/// Taking one entry out of a stream takes its units out of the total.
proof fn lemma_total_remove(s: Seq<Evidence>, j: int)
    requires
        0 <= j < s.len(),
    ensures
        quantity_total(s) == quantity_total(s.remove(j)) + entry_units(s[j]),
    decreases s.len(),
{
    if j == s.len() - 1 {
        assert(s.remove(j) =~= s.drop_last());
    } else {
        lemma_total_remove(s.drop_last(), j);
        assert(s.remove(j).drop_last() =~= s.drop_last().remove(j));
        assert(s.remove(j).last() == s.last());
    }
}

/// Streams with the same entries, in any order, have the same total.
proof fn lemma_total_reordered(a: Seq<Evidence>, b: Seq<Evidence>)
    requires
        a.to_multiset() == b.to_multiset(),
    ensures
        quantity_total(a) == quantity_total(b),
    decreases a.len(),
{
    broadcast use vstd::seq_lib::group_to_multiset_ensures;

    vstd::seq_lib::to_multiset_len(a);
    vstd::seq_lib::to_multiset_len(b);
    if a.len() == 0 {
        assert(b.len() == 0);
    } else {
        let x = a.last();
        assert(a.contains(x)) by {
            assert(a[a.len() - 1] == x);
        }
        assert(a.to_multiset().count(x) > 0);
        assert(b.to_multiset().count(x) > 0);
        assert(b.contains(x));
        let j = choose|j: int| 0 <= j < b.len() && b[j] == x;
        assert(a.drop_last() =~= a.remove(a.len() - 1));
        assert(a.drop_last().to_multiset() == b.remove(j).to_multiset());
        lemma_total_reordered(a.drop_last(), b.remove(j));
        lemma_total_remove(b, j);
    }
}

/// A stream of a numeric goal's kinds records no checklist item.
proof fn lemma_numeric_no_checklist(g: Goal, es: Seq<Evidence>, id: Seq<char>)
    requires
        g is Numeric,
        forall|i: int| 0 <= i < es.len() ==> evidence_valid(#[trigger] es[i], g),
    ensures
        checklist_state(es, id) is None,
    decreases es.len(),
{
    if es.len() > 0 {
        assert(evidence_valid(es[es.len() - 1], g));
        lemma_numeric_no_checklist(g, es.drop_last(), id);
    }
}

/// A numeric total does not depend on the order of the evidence: a stream
/// and any reordering of it are both accepted or both refused, and report
/// the same progress.
pub proof fn law_numeric_order_free(g: Goal, es: Seq<Evidence>, reordered: Seq<Evidence>, closed: bool)
    requires
        g is Numeric,
        reordered.to_multiset() == es.to_multiset(),
    ensures
        entries_ok(g, es) == entries_ok(g, reordered),
        entries_ok(g, es) ==> forall|p: Progress|
            progress_matches(p, g, es, closed) == #[trigger] progress_matches(p, g, reordered, closed),
{
    broadcast use vstd::seq_lib::group_to_multiset_ensures;

    lemma_total_reordered(es, reordered);
    vstd::seq_lib::to_multiset_len(es);
    vstd::seq_lib::to_multiset_len(reordered);
    assert(es.len() == reordered.len());
    assert forall|i: int| 0 <= i < es.len() implies (#[trigger] reordered.contains(es[i])) by {
        assert(es.contains(es[i]));
        assert(es.to_multiset().count(es[i]) > 0);
        assert(reordered.to_multiset().count(es[i]) > 0);
    }
    assert forall|i: int| 0 <= i < reordered.len() implies (#[trigger] es.contains(reordered[i])) by {
        assert(reordered.contains(reordered[i]));
        assert(reordered.to_multiset().count(reordered[i]) > 0);
        assert(es.to_multiset().count(reordered[i]) > 0);
    }
    assert((forall|i: int| 0 <= i < es.len() ==> evidence_valid(#[trigger] es[i], g)) == (forall|i: int|
        0 <= i < reordered.len() ==> evidence_valid(#[trigger] reordered[i], g))) by {
        if forall|i: int| 0 <= i < es.len() ==> evidence_valid(#[trigger] es[i], g) {
            assert forall|i: int| 0 <= i < reordered.len() implies evidence_valid(#[trigger] reordered[i], g) by {
                assert(es.contains(reordered[i]));
            }
        }
        if forall|i: int| 0 <= i < reordered.len() ==> evidence_valid(#[trigger] reordered[i], g) {
            assert forall|i: int| 0 <= i < es.len() implies evidence_valid(#[trigger] es[i], g) by {
                assert(reordered.contains(es[i]));
            }
        }
    }
    if entries_ok(g, es) {
        assert(goal_met(g, es) == goal_met(g, reordered));
        assert(outcome_of(g, es, closed) == outcome_of(g, reordered, closed));
        assert forall|id: Seq<char>| checklist_state(es, id) == checklist_state(reordered, id) by {
            lemma_numeric_no_checklist(g, es, id);
            lemma_numeric_no_checklist(g, reordered, id);
        }
    }
}

/// Closing a period settles it: with the same evidence, a closed period is
/// complete, missed or unknown, never incomplete or provisional; what was
/// complete or provisional while open is complete once closed, what was
/// incomplete is missed; the amount and the checked items stay the same.
pub proof fn law_closing_settles(g: Goal, es: Seq<Evidence>, open: Progress, closed: Progress)
    requires
        entries_ok(g, es),
        progress_matches(open, g, es, false),
        progress_matches(closed, g, es, true),
    ensures
        closed.outcome == Outcome::Complete || closed.outcome == Outcome::Missed || closed.outcome == Outcome::Unknown,
        open.outcome == Outcome::Complete || open.outcome == Outcome::Provisional ==> closed.outcome == Outcome::Complete,
        open.outcome == Outcome::Incomplete ==> closed.outcome == Outcome::Missed,
        open.amount is Some == closed.amount is Some,
        open.amount is Some ==> open.amount->Some_0.0@ == closed.amount->Some_0.0@,
        forall|id: Seq<char>| has_string(open.checked@, id) == #[trigger] has_string(closed.checked@, id),
{
    assert forall|id: Seq<char>| has_string(open.checked@, id) == #[trigger] has_string(closed.checked@, id) by {
        assert(has_string(open.checked@, id) == (checklist_state(es, id) == Some(true)));
        assert(has_string(closed.checked@, id) == (checklist_state(es, id) == Some(true)));
    }
}


/// A still-open period neither counts nor breaks a run: appending an
/// incomplete or provisional period leaves the current and the longest
/// streak as they were.
pub proof fn law_open_period_keeps_streak(periods: Seq<(Outcome, bool)>, allow: bool)
    ensures
        streak_runs(periods.push((Outcome::Incomplete, allow))) == streak_runs(periods),
        streak_runs(periods.push((Outcome::Provisional, allow))) == streak_runs(periods),
{
    assert(periods.push((Outcome::Incomplete, allow)).drop_last() =~= periods);
    assert(periods.push((Outcome::Provisional, allow)).drop_last() =~= periods);
}

/// A missed period breaks the current run and keeps the longest; with no
/// periods both runs are zero.
pub proof fn law_missed_breaks_streak(periods: Seq<(Outcome, bool)>, allow: bool)
    ensures
        streak_runs(Seq::<(Outcome, bool)>::empty()) == Some((0nat, 0nat)),
        streak_runs(periods) matches Some((c, l)) ==> streak_runs(periods.push((Outcome::Missed, allow)))
            == Some((0nat, l)),
        streak_runs(periods) is None ==> streak_runs(periods.push((Outcome::Missed, allow))) is None,
{
    assert(periods.push((Outcome::Missed, allow)).drop_last() =~= periods);
}

/// Silence after closing: with no evidence at all, a closed period of a
/// checkbox, a checklist or a numeric goal with only a minimum is missed,
/// and of any other goal unknown; an open one is always unknown. The empty
/// stream of a valid goal is accepted and reports no amount and nothing
/// checked.
pub proof fn law_silence_after_close(g: Goal, open: Progress, closed: Progress)
    requires
        goal_valid(g),
        progress_matches(open, g, Seq::<Evidence>::empty(), false),
        progress_matches(closed, g, Seq::<Evidence>::empty(), true),
    ensures
        entries_ok(g, Seq::<Evidence>::empty()),
        open.outcome == Outcome::Unknown,
        g is Checkbox ==> closed.outcome == Outcome::Missed,
        g is Checklist ==> closed.outcome == Outcome::Missed,
        (g matches Goal::Numeric { minimum, maximum, .. } && minimum is Some && maximum is None)
            ==> closed.outcome == Outcome::Missed,
        (g matches Goal::Numeric { minimum, maximum, .. } && (minimum is None || maximum is Some))
            ==> closed.outcome == Outcome::Unknown,
        open.amount is None && closed.amount is None,
        closed.checked@.len() == 0,
{
    assert(quantity_total(Seq::<Evidence>::empty()) == 0);
    if closed.checked@.len() > 0 {
        let id = closed.checked@[0]@;
        assert(checklist_state(Seq::<Evidence>::empty(), id) is None);
        assert(has_string(closed.checked@, id)) by {
            assert(0 <= 0 < closed.checked@.len() && closed.checked@[0]@ == id);
        }
        assert(false);
    }
}

} // verus!
