//! Sharing policies: who besides the owner sees or edits a resource.
use vstd::prelude::*;
use crate::error::ErrorCode;
use crate::is_canonical_uuid;
use crate::text::{lex_lt, push_str, str_eq, string_from_chars};
use crate::calendars::reminders::{int_rendering, push_int};
use crate::receipts::{debug_rendering, debug_text, digest_of};
use crate::tasks::goals::{has_string, strings_sorted};

verus! {

/// Access granted to one account or to every member of a household.
pub enum PrincipalGrant {
    Account { id: String, edit: bool },
    Household { id: String, edit: bool },
}

/// The grants of a resource, and the accounts excluded from them.
pub struct Policy {
    pub grants: Vec<PrincipalGrant>,
    pub exclude_accounts: Vec<String>,
}

/// A grant as plain values: whether it names a household, the principal,
/// and whether it allows editing.
pub open spec fn grant_view(g: PrincipalGrant) -> (bool, Seq<char>, bool) {
    match g {
        PrincipalGrant::Account { id, edit } => (false, id@, edit),
        PrincipalGrant::Household { id, edit } => (true, id@, edit),
    }
}

/// A policy as plain values: its grants and excluded accounts, in order.
pub open spec fn policy_view(p: Policy) -> (Seq<(bool, Seq<char>, bool)>, Seq<Seq<char>>) {
    (p.grants@.map_values(|g: PrincipalGrant| grant_view(g)), p.exclude_accounts@.map_values(|s: String| s@))
}

/// A policy shares when it grants anyone anything or excludes anyone.
pub open spec fn policy_shares(p: Policy) -> bool {
    p.grants@.len() > 0 || p.exclude_accounts@.len() > 0
}

impl PrincipalGrant {
    /// A copy of this grant.
    pub fn duplicate(&self) -> (g: PrincipalGrant)
        ensures
            grant_view(g) == grant_view(*self),
    {
        match self {
            PrincipalGrant::Account { id, edit } => PrincipalGrant::Account { id: id.clone(), edit: *edit },
            PrincipalGrant::Household { id, edit } => PrincipalGrant::Household {
                id: id.clone(),
                edit: *edit,
            },
        }
    }
}

impl Default for Policy {
    /// The private policy: no grants, no exclusions.
    fn default() -> (p: Policy)
        ensures
            p.grants@.len() == 0,
            p.exclude_accounts@.len() == 0,
    {
        Policy { grants: Vec::new(), exclude_accounts: Vec::new() }
    }
}

impl Policy {
    /// Whether the policy grants or excludes anyone.
    pub fn shares(&self) -> (b: bool)
        ensures
            b == policy_shares(*self),
    {
        self.grants.len() > 0 || self.exclude_accounts.len() > 0
    }

    /// A copy of this policy.
    pub fn duplicate(&self) -> (p: Policy)
        ensures
            policy_view(p) == policy_view(*self),
    {
        let mut grants: Vec<PrincipalGrant> = Vec::new();
        let mut i: usize = 0;
        while i < self.grants.len()
            invariant
                i <= self.grants@.len(),
                grants@.len() == i,
                forall|k: int| 0 <= k < i ==> grant_view(#[trigger] grants@[k]) == grant_view(self.grants@[k]),
            decreases self.grants.len() - i,
        {
            grants.push(self.grants[i].duplicate());
            i = i + 1;
        }
        let mut excluded: Vec<String> = Vec::new();
        let mut j: usize = 0;
        while j < self.exclude_accounts.len()
            invariant
                j <= self.exclude_accounts@.len(),
                excluded@.len() == j,
                forall|k: int| 0 <= k < j ==> (#[trigger] excluded@[k])@ == self.exclude_accounts@[k]@,
            decreases self.exclude_accounts.len() - j,
        {
            excluded.push(self.exclude_accounts[j].clone());
            j = j + 1;
        }
        let p = Policy { grants, exclude_accounts: excluded };
        assert(policy_view(p).0 =~= policy_view(*self).0);
        assert(policy_view(p).1 =~= policy_view(*self).1);
        p
    }
}

/// How new resources of one kind are shared by default.
pub enum DefaultTemplate {
    Private,
    PrimaryHousehold { edit: bool },
    Explicit { policy: Policy },
}

/// The default sharing templates of an account.
pub struct Defaults {
    pub revision: String,
    pub preferences_version: i64,
    pub primary_household_id: Option<String>,
    pub person: DefaultTemplate,
    pub field: DefaultTemplate,
    pub task: DefaultTemplate,
    pub list: DefaultTemplate,
    pub progress: DefaultTemplate,
}

/// A stored template and its version.
pub struct TemplateRecord {
    pub template: Option<DefaultTemplate>,
    pub version: i64,
}

/// The stored templates of one scope.
pub struct TemplateScope {
    pub person: TemplateRecord,
    pub field: TemplateRecord,
    pub task: TemplateRecord,
    pub list: TemplateRecord,
    pub progress: TemplateRecord,
}

/// A resource's policy and its version.
pub struct PolicyState {
    pub version: i64,
    pub policy: Policy,
}

/// The template for a kind of resource; fields are the fallback.
pub open spec fn template_for(d: Defaults, kind: Seq<char>) -> DefaultTemplate {
    if kind == "person"@ {
        d.person
    } else if kind == "task"@ {
        d.task
    } else if kind == "list"@ {
        d.list
    } else if kind == "progress"@ {
        d.progress
    } else {
        d.field
    }
}

/// The policy a template gives a new resource: nothing for a private one,
/// the primary household (when there is one) for a household one, and the
/// explicit policy otherwise.
pub open spec fn template_policy(t: DefaultTemplate, primary: Option<String>) -> (
    Seq<(bool, Seq<char>, bool)>,
    Seq<Seq<char>>,
) {
    match t {
        DefaultTemplate::Private => (Seq::empty(), Seq::empty()),
        DefaultTemplate::PrimaryHousehold { edit } => (
            if primary is Some {
                seq![(true, primary->Some_0@, edit)]
            } else {
                Seq::empty()
            },
            Seq::empty(),
        ),
        DefaultTemplate::Explicit { policy } => policy_view(policy),
    }
}

/// The policy a new resource of `kind` receives from the defaults.
pub fn resolved_policy(defaults: &Defaults, kind: &str) -> (p: Policy)
    ensures
        policy_view(p) == template_policy(template_for(*defaults, kind@), defaults.primary_household_id),
{
    proof {
        reveal_strlit("person");
        reveal_strlit("task");
        reveal_strlit("list");
        reveal_strlit("progress");
    }
    let template = if str_eq(kind, "person") {
        &defaults.person
    } else if str_eq(kind, "task") {
        &defaults.task
    } else if str_eq(kind, "list") {
        &defaults.list
    } else if str_eq(kind, "progress") {
        &defaults.progress
    } else {
        &defaults.field
    };
    match template {
        DefaultTemplate::Private => {
            let p = Policy { grants: Vec::new(), exclude_accounts: Vec::new() };
            assert(policy_view(p).0 =~= Seq::empty());
            assert(policy_view(p).1 =~= Seq::empty());
            p
        },
        DefaultTemplate::PrimaryHousehold { edit } => {
            let mut grants: Vec<PrincipalGrant> = Vec::new();
            if let Some(id) = &defaults.primary_household_id {
                grants.push(PrincipalGrant::Household { id: id.clone(), edit: *edit });
            }
            let p = Policy { grants, exclude_accounts: Vec::new() };
            assert(policy_view(p).1 =~= Seq::empty());
            assert(policy_view(p).0 =~= template_policy(template_for(*defaults, kind@), defaults.primary_household_id).0);
            p
        },
        DefaultTemplate::Explicit { policy } => policy.duplicate(),
    }
}

/// The most grants, and the most exclusions, one policy may hold.
pub const MAX_GRANTS: usize = 100;

/// A policy's shape: at most 100 grants and 100 exclusions, each naming a
/// canonical identity, no principal granted twice and no account excluded
/// twice.
pub open spec fn policy_shape_ok(p: Policy) -> bool {
    let (grants, excluded) = policy_view(p);
    &&& grants.len() <= MAX_GRANTS
    &&& excluded.len() <= MAX_GRANTS
    &&& forall|i: int| 0 <= i < grants.len() ==> is_canonical_uuid(#[trigger] grants[i].1)
    &&& forall|i: int, j: int|
        0 <= i < j < grants.len() ==> (#[trigger] grants[i].0, grants[i].1) != (
        #[trigger] grants[j].0, grants[j].1)
    &&& forall|i: int| 0 <= i < excluded.len() ==> is_canonical_uuid(#[trigger] excluded[i])
    &&& forall|i: int, j: int| 0 <= i < j < excluded.len() ==> #[trigger] excluded[i] != #[trigger] excluded[j]
}

fn grant_parts(g: &PrincipalGrant) -> (r: (bool, &String))
    ensures
        (r.0, r.1@) == (grant_view(*g).0, grant_view(*g).1),
{
    match g {
        PrincipalGrant::Account { id, .. } => (false, id),
        PrincipalGrant::Household { id, .. } => (true, id),
    }
}

/// Checks a policy's shape (see `policy_shape_ok`).
pub fn check_policy_shape(p: &Policy) -> (r: Result<(), ErrorCode>)
    ensures
        r is Ok <==> policy_shape_ok(*p),
        r matches Err(e) ==> e == ErrorCode::InvalidValue,
{
    let ghost (grants, excluded) = policy_view(*p);
    if p.grants.len() > MAX_GRANTS || p.exclude_accounts.len() > MAX_GRANTS {
        return Err(ErrorCode::InvalidValue);
    }
    let mut i: usize = 0;
    while i < p.grants.len()
        invariant
            grants == policy_view(*p).0,
            i <= grants.len(),
            grants.len() == p.grants@.len(),
            forall|a: int| 0 <= a < i ==> is_canonical_uuid(#[trigger] grants[a].1),
            forall|a: int, b: int|
                0 <= a < b < grants.len() && a < i ==> (#[trigger] grants[a].0, grants[a].1) != (
                #[trigger] grants[b].0, grants[b].1),
        decreases p.grants.len() - i,
    {
        let (household, id) = grant_parts(&p.grants[i]);
        assert(grants[i as int] == grant_view(p.grants@[i as int]));
        if crate::identifier(id.as_str()).is_err() {
            assert(!is_canonical_uuid(grants[i as int].1));
            return Err(ErrorCode::InvalidValue);
        }
        let mut j: usize = i + 1;
        while j < p.grants.len()
            invariant
                grants == policy_view(*p).0,
                grants.len() == p.grants@.len(),
                i < grants.len(),
                i + 1 <= j <= grants.len(),
                (household, id@) == (grants[i as int].0, grants[i as int].1),
                forall|b: int| i < b < j ==> (grants[i as int].0, grants[i as int].1) != (
                    #[trigger] grants[b].0, grants[b].1),
            decreases p.grants.len() - j,
        {
            let (other_household, other) = grant_parts(&p.grants[j]);
            assert(grants[j as int] == grant_view(p.grants@[j as int]));
            if household == other_household && str_eq(id.as_str(), other.as_str()) {
                assert((grants[i as int].0, grants[i as int].1) == (grants[j as int].0, grants[j as int].1));
                return Err(ErrorCode::InvalidValue);
            }
            j = j + 1;
        }
        i = i + 1;
    }
    let mut k: usize = 0;
    while k < p.exclude_accounts.len()
        invariant
            excluded == policy_view(*p).1,
            excluded.len() == p.exclude_accounts@.len(),
            k <= excluded.len(),
            forall|a: int| 0 <= a < k ==> is_canonical_uuid(#[trigger] excluded[a]),
        decreases p.exclude_accounts.len() - k,
    {
        if crate::identifier(p.exclude_accounts[k].as_str()).is_err() {
            assert(excluded[k as int] == p.exclude_accounts@[k as int]@);
            assert(!is_canonical_uuid(excluded[k as int]));
            return Err(ErrorCode::InvalidValue);
        }
        k = k + 1;
    }
    if !crate::text::all_distinct(p.exclude_accounts.as_slice()) {
        return Err(ErrorCode::InvalidValue);
    }
    Ok(())
}

/// The template a resource kind falls back to without a personal or
/// household template: people are shared with the primary household for
/// editing, progress for reading, and anything else stays private.
pub open spec fn fallback_template_of(kind: Seq<char>) -> DefaultTemplate {
    if kind == "person"@ {
        DefaultTemplate::PrimaryHousehold { edit: true }
    } else if kind == "progress"@ {
        DefaultTemplate::PrimaryHousehold { edit: false }
    } else {
        DefaultTemplate::Private
    }
}

/// The template a resource kind falls back to (see `fallback_template_of`).
pub fn fallback_template(kind: &str) -> (r: DefaultTemplate)
    ensures
        r == fallback_template_of(kind@),
{
    if str_eq(kind, "person") {
        DefaultTemplate::PrimaryHousehold { edit: true }
    } else if str_eq(kind, "progress") {
        DefaultTemplate::PrimaryHousehold { edit: false }
    } else {
        DefaultTemplate::Private
    }
}


/// Whether one of the first `n` grants gives account `a` access directly.
pub open spec fn granted_directly(grants: Seq<(bool, Seq<char>, bool)>, n: int, a: Seq<char>) -> bool {
    exists|k: int| 0 <= k < n && k < grants.len() && (#[trigger] grants[k]).0 == false && grants[k].1 == a
}

/// Whether `a` is among the first `n` texts of `v`.
pub open spec fn among(v: Seq<Seq<char>>, n: int, a: Seq<char>) -> bool {
    exists|k: int| 0 <= k < n && k < v.len() && #[trigger] v[k] == a
}

/// Who a policy reaches: the accounts it grants directly and the members of
/// the households it grants (`members`), less the accounts it excludes.
pub open spec fn audience_of(p: Policy, members: Seq<Seq<char>>) -> Set<Seq<char>> {
    Set::new(
        |a: Seq<char>|
            (policy_view(p).0.contains((false, a, true)) || policy_view(p).0.contains(
                (false, a, false),
            ) || members.contains(a)) && !policy_view(p).1.contains(a),
    )
}

/// A text is in `v.push(x)` exactly when it is `x` or in `v`.
proof fn lemma_push_contains(v: Seq<Seq<char>>, x: Seq<char>, a: Seq<char>)
    ensures
        v.push(x).contains(a) <==> (v.contains(a) || a == x),
{
    if v.contains(a) {
        let w = choose|w: int| 0 <= w < v.len() && v[w] == a;
        assert(v.push(x)[w] == a);
    }
    if a == x {
        assert(v.push(x)[v.len() as int] == a);
    }
    if v.push(x).contains(a) {
        let w = choose|w: int| 0 <= w < v.push(x).len() && v.push(x)[w] == a;
        if w < v.len() {
            assert(v[w] == a);
        }
    }
}

/// Adds to `out` each of `source` not in `excluded` and not already there.
fn gather(out: &mut Vec<String>, source: &[String], excluded: &[String])
    requires
        crate::text::distinct_texts(crate::text::texts(old(out)@)),
    ensures
        crate::text::distinct_texts(crate::text::texts(final(out)@)),
        forall|a: Seq<char>|
            #[trigger] crate::text::texts(final(out)@).contains(a) <==> (crate::text::texts(
                old(out)@,
            ).contains(a) || (crate::text::texts(source@).contains(a) && !crate::text::texts(
                excluded@,
            ).contains(a))),
{
    let ghost start = crate::text::texts(out@);
    let ghost src = crate::text::texts(source@);
    let ghost ex = crate::text::texts(excluded@);
    let mut k: usize = 0;
    while k < source.len()
        invariant
            k <= source@.len(),
            src == crate::text::texts(source@),
            ex == crate::text::texts(excluded@),
            start == crate::text::texts(old(out)@),
            crate::text::distinct_texts(crate::text::texts(out@)),
            forall|a: Seq<char>|
                #[trigger] crate::text::texts(out@).contains(a) <==> (start.contains(a) || (among(
                    src,
                    k as int,
                    a,
                ) && !ex.contains(a))),
        decreases source.len() - k,
    {
        let ghost before = crate::text::texts(out@);
        let candidate = &source[k];
        assert(src[k as int] == candidate@);
        let fresh = !crate::text::string_in(excluded, candidate.as_str())
            && !crate::text::string_in(out, candidate.as_str());
        if fresh {
            out.push(candidate.clone());
            assert(crate::text::texts(out@) =~= before.push(candidate@));
            assert forall|x: int, y: int|
                0 <= x < y < crate::text::texts(out@).len() implies crate::text::texts(out@)[x]
                != crate::text::texts(out@)[y] by {
                if y == before.len() {
                    assert(before.contains(before[x]));
                }
            }
        }
        assert forall|a: Seq<char>| #[trigger] crate::text::texts(out@).contains(a) <==> (
        start.contains(a) || (among(src, k + 1, a) && !ex.contains(a))) by {
            if fresh {
                lemma_push_contains(before, candidate@, a);
            }
            if among(src, k + 1, a) && !among(src, k as int, a) {
                let q = choose|q: int| 0 <= q < k + 1 && q < src.len() && #[trigger] src[q] == a;
                assert(q == k);
            }
            if among(src, k as int, a) {
                let q = choose|q: int| 0 <= q < k && q < src.len() && #[trigger] src[q] == a;
                assert(0 <= q < k + 1 && q < src.len() && src[q] == a);
            }
        }
        k = k + 1;
    }
    assert forall|a: Seq<char>| among(src, k as int, a) <==> src.contains(a) by {
        if src.contains(a) {
            let q = choose|q: int| 0 <= q < src.len() && src[q] == a;
            assert(0 <= q < k && q < src.len() && src[q] == a);
        }
    }
}

/// Lists, each once, the accounts a policy reaches (see `audience_of`),
/// given the members of the households it grants.
pub fn policy_audience(p: &Policy, members: &Vec<String>) -> (r: Vec<String>)
    ensures
        crate::text::distinct_texts(crate::text::texts(r@)),
        crate::text::texts(r@).to_set() == audience_of(*p, crate::text::texts(members@)),
{
    let ghost (grants, excluded) = policy_view(*p);
    let mut direct: Vec<String> = Vec::new();
    let mut i: usize = 0;
    while i < p.grants.len()
        invariant
            grants == policy_view(*p).0,
            grants.len() == p.grants@.len(),
            i <= grants.len(),
            forall|a: Seq<char>|
                #[trigger] crate::text::texts(direct@).contains(a) <==> granted_directly(
                    grants,
                    i as int,
                    a,
                ),
        decreases p.grants.len() - i,
    {
        let ghost before = crate::text::texts(direct@);
        assert(grants[i as int] == grant_view(p.grants@[i as int]));
        match &p.grants[i] {
            PrincipalGrant::Account { id, .. } => {
                direct.push(id.clone());
                assert(crate::text::texts(direct@) =~= before.push(id@));
                assert forall|a: Seq<char>| #[trigger] crate::text::texts(direct@).contains(a)
                    <==> granted_directly(grants, i + 1, a) by {
                    lemma_push_contains(before, id@, a);
                    if granted_directly(grants, i + 1, a) && a != id@ {
                        let k = choose|k: int|
                            0 <= k < i + 1 && k < grants.len() && (#[trigger] grants[k]).0 == false
                                && grants[k].1 == a;
                        assert(k < i);
                    }
                    if granted_directly(grants, i as int, a) {
                        let k = choose|k: int|
                            0 <= k < i && k < grants.len() && (#[trigger] grants[k]).0 == false
                                && grants[k].1 == a;
                        assert(0 <= k < i + 1);
                    }
                    if a == id@ {
                        assert(grants[i as int].0 == false && grants[i as int].1 == a);
                    }
                }
            },
            PrincipalGrant::Household { .. } => {
                assert forall|a: Seq<char>| #[trigger] crate::text::texts(direct@).contains(a)
                    <==> granted_directly(grants, i + 1, a) by {
                    if granted_directly(grants, i + 1, a) {
                        let k = choose|k: int|
                            0 <= k < i + 1 && k < grants.len() && (#[trigger] grants[k]).0 == false
                                && grants[k].1 == a;
                        assert(k < i);
                    }
                    if granted_directly(grants, i as int, a) {
                        let k = choose|k: int|
                            0 <= k < i && k < grants.len() && (#[trigger] grants[k]).0 == false
                                && grants[k].1 == a;
                        assert(0 <= k < i + 1);
                    }
                }
            },
        }
        i = i + 1;
    }
    let mut out: Vec<String> = Vec::new();
    assert(crate::text::texts(out@) =~= Seq::<Seq<char>>::empty());
    gather(&mut out, direct.as_slice(), p.exclude_accounts.as_slice());
    gather(&mut out, members.as_slice(), p.exclude_accounts.as_slice());
    proof {
        let res = crate::text::texts(out@);
        let target = audience_of(*p, crate::text::texts(members@));
        assert forall|a: Seq<char>| res.to_set().contains(a) <==> target.contains(a) by {
            if grants.contains((false, a, true)) {
                let g = choose|g: int| 0 <= g < grants.len() && grants[g] == (false, a, true);
                assert(granted_directly(grants, i as int, a));
            }
            if grants.contains((false, a, false)) {
                let g = choose|g: int| 0 <= g < grants.len() && grants[g] == (false, a, false);
                assert(granted_directly(grants, i as int, a));
            }
            if granted_directly(grants, i as int, a) {
                let q = choose|q: int|
                    0 <= q < i && q < grants.len() && (#[trigger] grants[q]).0 == false && grants[q].1
                        == a;
                if grants[q].2 {
                    assert(grants.contains((false, a, true)));
                } else {
                    assert(grants.contains((false, a, false)));
                }
            }
        }
        assert(res.to_set() =~= target);
    }
    out
}


/// The households an explicit template grants.
pub open spec fn template_households(t: DefaultTemplate) -> Set<Seq<char>> {
    match t {
        DefaultTemplate::Explicit { policy } => Set::new(
            |h: Seq<char>|
                policy_view(policy).0.contains((true, h, true)) || policy_view(policy).0.contains(
                    (true, h, false),
                ),
        ),
        _ => Set::empty(),
    }
}

/// The households whose versions enter a defaults revision: the primary
/// household and every household an explicit template grants.
pub open spec fn defaults_households(primary: Option<String>, templates: Seq<DefaultTemplate>) -> Set<
    Seq<char>,
> {
    Set::new(
        |h: Seq<char>|
            (primary matches Some(p) && p@ == h) || exists|k: int|
                0 <= k < templates.len() && #[trigger] template_households(templates[k]).contains(h),
    )
}

/// Adds `item` to sorted, distinct strings, keeping them so.
fn insert_sorted(ids: &mut Vec<String>, item: &String)
    requires
        strings_sorted(old(ids)@),
    ensures
        strings_sorted(final(ids)@),
        forall|id: Seq<char>|
            #[trigger] has_string(final(ids)@, id) <==> (has_string(old(ids)@, id) || id == item@),
{
    let ghost before = ids@;
    let mut p: usize = 0;
    while p < ids.len() && crate::text::str_less(ids[p].as_str(), item.as_str())
        invariant
            p <= ids@.len(),
            ids@ == before,
            forall|m: int| 0 <= m < p ==> lex_lt(#[trigger] ids@[m]@, item@),
        decreases ids.len() - p,
    {
        p = p + 1;
    }
    if p < ids.len() && str_eq(ids[p].as_str(), item.as_str()) {
        assert forall|id: Seq<char>| #[trigger] has_string(ids@, id) <==> (has_string(before, id)
            || id == item@) by {
            if id == item@ {
                assert(ids@[p as int]@ == id);
            }
        }
        return ;
    }
    proof {
        if p < ids.len() {
            crate::text::lemma_lex_trichotomy(ids@[p as int]@, item@);
        }
    }
    ids.insert(p, item.clone());
    proof {
        assert forall|a: int, b: int| 0 <= a < b < ids@.len() implies lex_lt(
            #[trigger] ids@[a]@,
            #[trigger] ids@[b]@,
        ) by {
            if b < p {
                assert(ids@[a] == before[a] && ids@[b] == before[b]);
            } else if b == p {
                assert(ids@[a] == before[a]);
            } else if a == p {
                assert(ids@[b] == before[b - 1]);
                if b - 1 > p {
                    crate::text::lemma_lex_transitive(item@, before[p as int]@, before[b - 1]@);
                }
            } else if a < p {
                assert(ids@[a] == before[a] && ids@[b] == before[b - 1]);
                if b - 1 > p {
                    crate::text::lemma_lex_transitive(item@, before[p as int]@, before[b - 1]@);
                }
                crate::text::lemma_lex_transitive(before[a]@, item@, before[b - 1]@);
            } else {
                assert(ids@[a] == before[a - 1] && ids@[b] == before[b - 1]);
            }
        }
        assert forall|id: Seq<char>| #[trigger] has_string(ids@, id) <==> (has_string(before, id)
            || id == item@) by {
            if id == item@ {
                assert(ids@[p as int]@ == id);
            }
            if has_string(before, id) {
                let m = choose|m: int| 0 <= m < before.len() && #[trigger] before[m]@ == id;
                if m < p {
                    assert(ids@[m] == before[m]);
                } else {
                    assert(ids@[m + 1] == before[m]);
                }
            }
            if has_string(ids@, id) {
                let m = choose|m: int| 0 <= m < ids@.len() && #[trigger] ids@[m]@ == id;
                if m < p {
                    assert(ids@[m] == before[m]);
                } else if m > p {
                    assert(ids@[m] == before[m - 1]);
                }
            }
        }
    }
}

/// The households of a defaults revision (see `defaults_households`), each
/// once, in increasing order.
pub fn default_households(primary: &Option<String>, templates: &Vec<DefaultTemplate>) -> (r: Vec<
    String,
>)
    ensures
        strings_sorted(r@),
        forall|h: Seq<char>|
            #[trigger] has_string(r@, h) <==> defaults_households(*primary, templates@).contains(h),
{
    let mut out: Vec<String> = Vec::new();
    if let Some(p) = primary {
        insert_sorted(&mut out, p);
    }
    let mut k: usize = 0;
    while k < templates.len()
        invariant
            k <= templates@.len(),
            strings_sorted(out@),
            forall|h: Seq<char>|
                #[trigger] has_string(out@, h) <==> ((primary matches Some(p) && p@ == h) || exists|
                    q: int,
                | 0 <= q < k && #[trigger] template_households(templates@[q]).contains(h)),
        decreases templates.len() - k,
    {
        let ghost before = out@;
        match &templates[k] {
            DefaultTemplate::Explicit { policy } => {
                let ghost grants = policy_view(*policy).0;
                let mut g: usize = 0;
                while g < policy.grants.len()
                    invariant
                        g <= policy.grants@.len(),
                        grants == policy_view(*policy).0,
                        grants.len() == policy.grants@.len(),
                        templates@[k as int] == (DefaultTemplate::Explicit { policy: *policy }),
                        strings_sorted(out@),
                        forall|h: Seq<char>|
                            #[trigger] has_string(out@, h) <==> (has_string(before, h) || exists|
                                q: int,
                            | 0 <= q < g && (#[trigger] grants[q]).0 && grants[q].1 == h),
                    decreases policy.grants.len() - g,
                {
                    let ghost mid = out@;
                    assert(grants[g as int] == grant_view(policy.grants@[g as int]));
                    match &policy.grants[g] {
                        PrincipalGrant::Household { id, .. } => {
                            insert_sorted(&mut out, id);
                            assert forall|h: Seq<char>| #[trigger] has_string(out@, h) <==> (
                            has_string(before, h) || exists|q: int|
                                0 <= q < g + 1 && (#[trigger] grants[q]).0 && grants[q].1 == h) by {
                                if h == id@ {
                                    assert(grants[g as int].0 && grants[g as int].1 == h);
                                }
                                if exists|q: int| 0 <= q < g + 1 && (#[trigger] grants[q]).0 && grants[q].1 == h {
                                    let q = choose|q: int| 0 <= q < g + 1 && (#[trigger] grants[q]).0 && grants[q].1 == h;
                                    if q < g {
                                        assert(has_string(mid, h));
                                    }
                                }
                            }
                        },
                        PrincipalGrant::Account { .. } => {
                            assert forall|h: Seq<char>| #[trigger] has_string(out@, h) <==> (
                            has_string(before, h) || exists|q: int|
                                0 <= q < g + 1 && (#[trigger] grants[q]).0 && grants[q].1 == h) by {
                                if exists|q: int| 0 <= q < g + 1 && (#[trigger] grants[q]).0 && grants[q].1 == h {
                                    let q = choose|q: int| 0 <= q < g + 1 && (#[trigger] grants[q]).0 && grants[q].1 == h;
                                    assert(q < g);
                                }
                            }
                        },
                    }
                    g = g + 1;
                }
                assert forall|h: Seq<char>| #[trigger] has_string(out@, h) <==> ((primary matches Some(
                    p,
                ) && p@ == h) || exists|q: int|
                    0 <= q < k + 1 && #[trigger] template_households(templates@[q]).contains(h)) by {
                    let here = template_households(templates@[k as int]);
                    if here.contains(h) {
                        if grants.contains((true, h, true)) {
                            let q = choose|q: int| 0 <= q < grants.len() && grants[q] == (true, h, true);
                            assert(grants[q].0 && grants[q].1 == h);
                        } else {
                            let q = choose|q: int| 0 <= q < grants.len() && grants[q] == (true, h, false);
                            assert(grants[q].0 && grants[q].1 == h);
                        }
                    }
                    if exists|q: int| 0 <= q < g && (#[trigger] grants[q]).0 && grants[q].1 == h {
                        let q = choose|q: int| 0 <= q < g && (#[trigger] grants[q]).0 && grants[q].1 == h;
                        if grants[q].2 {
                            assert(grants.contains((true, h, true)));
                        } else {
                            assert(grants.contains((true, h, false)));
                        }
                        assert(here.contains(h));
                    }
                    if exists|q: int| 0 <= q < k + 1 && #[trigger] template_households(templates@[q]).contains(h) {
                        let q = choose|q: int| 0 <= q < k + 1 && #[trigger] template_households(templates@[q]).contains(h);
                        if q < k {
                            assert(has_string(before, h));
                        }
                    }
                }
            },
            _ => {
                assert(template_households(templates@[k as int]) =~= Set::empty());
                assert forall|h: Seq<char>| #[trigger] has_string(out@, h) <==> ((primary matches Some(
                    p,
                ) && p@ == h) || exists|q: int|
                    0 <= q < k + 1 && #[trigger] template_households(templates@[q]).contains(h)) by {
                    if exists|q: int| 0 <= q < k + 1 && #[trigger] template_households(templates@[q]).contains(h) {
                        let q = choose|q: int| 0 <= q < k + 1 && #[trigger] template_households(templates@[q]).contains(h);
                        assert(q < k);
                    }
                }
            },
        }
        k = k + 1;
    }
    out
}


/// The kinds of defaults, in the order their templates are read.
pub open spec fn defaults_kind_name(k: int) -> Seq<char> {
    if k == 0 {
        "person"@
    } else if k == 1 {
        "field"@
    } else if k == 2 {
        "task"@
    } else if k == 3 {
        "list"@
    } else {
        "progress"@
    }
}

/// The revision line of one kind: the version and payload of the stored
/// template selected for it, or the built-in fallback's name.
pub open spec fn template_line(kind: Seq<char>, selected: Option<(i64, String)>) -> Seq<char> {
    match selected {
        Some((version, payload)) => kind + ":"@ + int_rendering(version as int) + ":"@ + payload@,
        None => kind + ":application-v1"@,
    }
}

/// An optional integer as `Debug` writes it: `Some(n)` or `None`.
pub open spec fn opt_int_rendering(v: Option<i64>) -> Seq<char> {
    match v {
        Some(n) => "Some("@ + int_rendering(n as int) + ")"@,
        None => "None"@,
    }
}

/// The revision line of a household: its version as the account sees it,
/// `None` once it is no longer a member.
pub open spec fn household_line(h: (String, Option<i64>)) -> Seq<char> {
    "household:"@ + h.0@ + ":"@ + opt_int_rendering(h.1)
}

/// Lines joined by newlines.
pub open spec fn lines_joined(lines: Seq<Seq<char>>) -> Seq<char>
    decreases lines.len(),
{
    if lines.len() == 0 {
        Seq::empty()
    } else if lines.len() == 1 {
        lines[0]
    } else {
        lines_joined(lines.drop_last()) + "\n"@ + lines.last()
    }
}

/// The lines a defaults revision digests: the account's own line, one line
/// per kind, and one per household (see `defaults_households`).
pub open spec fn revision_lines(
    actor: Seq<char>,
    preferences_version: i64,
    primary: Option<Seq<char>>,
    selected: Seq<Option<(i64, String)>>,
    households: Seq<(String, Option<i64>)>,
) -> Seq<Seq<char>> {
    seq![actor + ":"@ + int_rendering(preferences_version as int) + ":"@ + debug_rendering(primary)]
        + Seq::new(5, |k: int| template_line(defaults_kind_name(k), selected[k]))
        + households.map_values(|h: (String, Option<i64>)| household_line(h))
}

/// Appends a line to joined lines.
proof fn lemma_joined_push(lines: Seq<Seq<char>>, line: Seq<char>)
    requires
        lines.len() > 0,
    ensures
        lines_joined(lines.push(line)) == lines_joined(lines) + "\n"@ + line,
{
    assert(lines.push(line).drop_last() =~= lines);
}

/// Appends a newline and then an optional integer as `Debug` writes it.
fn push_opt_int(v: &mut Vec<char>, n: Option<i64>)
    ensures
        final(v)@ == old(v)@ + opt_int_rendering(n),
{
    match n {
        Some(x) => {
            push_str(v, "Some(");
            push_int(v, x);
            push_str(v, ")");
        },
        None => {
            push_str(v, "None");
        },
    }
}

/// The revision of an account's defaults: the receipt digest of its
/// revision lines (see `revision_lines`), so that a client can tell whether
/// the defaults it relied on changed. `selected` holds, per kind in order,
/// the version and payload of the stored template chosen, if any.
pub fn defaults_revision(
    actor: &str,
    preferences_version: i64,
    primary: Option<&str>,
    selected: &[Option<(i64, String)>; 5],
    households: &Vec<(String, Option<i64>)>,
) -> (r: String)
    ensures
        r@ == digest_of(
            lines_joined(
                revision_lines(
                    actor@,
                    preferences_version,
                    match primary {
                        Some(p) => Some(p@),
                        None => None,
                    },
                    selected@,
                    households@,
                ),
            ),
        ),
{
    let ghost lines = revision_lines(
        actor@,
        preferences_version,
        match primary {
            Some(p) => Some(p@),
            None => None,
        },
        selected@,
        households@,
    );
    let mut v: Vec<char> = Vec::new();
    push_str(&mut v, actor);
    push_str(&mut v, ":");
    push_int(&mut v, preferences_version);
    push_str(&mut v, ":");
    let rendered = debug_text(primary);
    push_str(&mut v, rendered.as_str());
    assert(lines.take(1) =~= seq![lines[0]]);
    assert(v@ == lines_joined(lines.take(1)));
    let mut k: usize = 0;
    while k < 5
        invariant
            k <= 5,
            selected@.len() == 5,
            lines == revision_lines(
                actor@,
                preferences_version,
                match primary {
                    Some(p) => Some(p@),
                    None => None,
                },
                selected@,
                households@,
            ),
            v@ == lines_joined(lines.take(1 + k)),
        decreases 5 - k,
    {
        let ghost before = v@;
        push_str(&mut v, "\n");
        let kind = if k == 0 {
            "person"
        } else if k == 1 {
            "field"
        } else if k == 2 {
            "task"
        } else if k == 3 {
            "list"
        } else {
            "progress"
        };
        assert(kind@ == defaults_kind_name(k as int));
        push_str(&mut v, kind);
        match &selected[k] {
            Some((version, payload)) => {
                push_str(&mut v, ":");
                push_int(&mut v, *version);
                push_str(&mut v, ":");
                push_str(&mut v, payload.as_str());
            },
            None => {
                push_str(&mut v, ":application-v1");
            },
        }
        proof {
            assert(lines[1 + k as int] == template_line(defaults_kind_name(k as int), selected@[k as int]));
            assert(v@ =~= before + "\n"@ + lines[1 + k as int]);
            lemma_joined_push(lines.take(1 + k), lines[1 + k as int]);
            assert(lines.take(1 + k).push(lines[1 + k as int]) =~= lines.take(1 + k + 1));
        }
        k = k + 1;
    }
    let mut h: usize = 0;
    while h < households.len()
        invariant
            h <= households@.len(),
            lines == revision_lines(
                actor@,
                preferences_version,
                match primary {
                    Some(p) => Some(p@),
                    None => None,
                },
                selected@,
                households@,
            ),
            lines.len() == 6 + households@.len(),
            v@ == lines_joined(lines.take(6 + h)),
        decreases households.len() - h,
    {
        let ghost before = v@;
        push_str(&mut v, "\n");
        push_str(&mut v, "household:");
        push_str(&mut v, households[h].0.as_str());
        push_str(&mut v, ":");
        push_opt_int(&mut v, households[h].1);
        proof {
            assert(lines[6 + h as int] == household_line(households@[h as int]));
            assert(v@ =~= before + "\n"@ + lines[6 + h as int]);
            lemma_joined_push(lines.take(6 + h), lines[6 + h as int]);
            assert(lines.take(6 + h).push(lines[6 + h as int]) =~= lines.take(6 + h + 1));
        }
        h = h + 1;
    }
    assert(lines.take(6 + h) =~= lines);
    let text = string_from_chars(v.as_slice());
    crate::receipt_digest(text.as_str())
}


/// Each kind of resource reads exactly the template named for it (fields,
/// and any other kind, read the field template), whatever the others hold:
/// a private template gives the empty policy, a household one grants the
/// primary household (if any) with its edit right, and an explicit one its
/// own policy.
pub proof fn law_kind_reads_its_template(d: Defaults, kind: Seq<char>)
    ensures
        template_policy(template_for(d, "person"@), d.primary_household_id) == template_policy(d.person, d.primary_household_id),
        template_policy(template_for(d, "task"@), d.primary_household_id) == template_policy(d.task, d.primary_household_id),
        template_policy(template_for(d, "list"@), d.primary_household_id) == template_policy(d.list, d.primary_household_id),
        template_policy(template_for(d, "progress"@), d.primary_household_id) == template_policy(d.progress, d.primary_household_id),
        template_policy(template_for(d, "field"@), d.primary_household_id) == template_policy(d.field, d.primary_household_id),
        kind != "person"@ && kind != "task"@ && kind != "list"@ && kind != "progress"@ ==> template_policy(
            template_for(d, kind),
            d.primary_household_id,
        ) == template_policy(d.field, d.primary_household_id),
        d.progress is Private ==> template_policy(template_for(d, "progress"@), d.primary_household_id) == (
            Seq::<(bool, Seq<char>, bool)>::empty(),
            Seq::<Seq<char>>::empty(),
        ),
        d.task is PrimaryHousehold && d.primary_household_id is Some ==> template_policy(
            template_for(d, "task"@),
            d.primary_household_id,
        ) == (
            seq![(true, d.primary_household_id->Some_0@, d.task->PrimaryHousehold_edit)],
            Seq::<Seq<char>>::empty(),
        ),
{
    reveal_strlit("person");
    reveal_strlit("task");
    reveal_strlit("list");
    reveal_strlit("progress");
    reveal_strlit("field");
    assert("task"@ != "person"@) by {
        assert("task"@.len() != "person"@.len());
    }
    assert("list"@ != "person"@) by {
        assert("list"@.len() != "person"@.len());
    }
    assert("list"@ != "task"@) by {
        assert("list"@[0] != "task"@[0]);
    }
    assert("progress"@ != "person"@) by {
        assert("progress"@.len() != "person"@.len());
    }
    assert("progress"@ != "task"@) by {
        assert("progress"@.len() != "task"@.len());
    }
    assert("progress"@ != "list"@) by {
        assert("progress"@.len() != "list"@.len());
    }
    assert("field"@ != "person"@ && "field"@ != "task"@ && "field"@ != "list"@ && "field"@ != "progress"@) by {
        assert("field"@.len() == 5);
    }
}

} // verus!
