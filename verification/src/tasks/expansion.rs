//! The walk of a dependency preview through an occurrence's prerequisites.
//!
//! The walk keeps a stack of occurrences still to see, each marked whether
//! its prerequisites were already pushed, and the set of occurrences it has
//! met. An occurrence is met once: met again unexpanded, it is skipped. Each
//! occurrence met is reported twice: first to push its prerequisites above
//! it, and again, once the stack is back down to it, to be listed.
use vstd::prelude::*;
use crate::error::ErrorCode;
use crate::text::{distinct_texts, string_in};

verus! {

/// The most distinct occurrences one preview may meet.
pub const MAX_EXPANDED: usize = 200;

/// An entry of the walk as plain values.
pub open spec fn entry_view(e: (String, bool)) -> (Seq<char>, bool) {
    (e.0@, e.1)
}

/// What the walk takes next from the stack `pending`, having met `visited`:
/// the stack left behind and the entry taken, if any. Entries of occurrences
/// already met, not yet expanded, are dropped on the way.
pub open spec fn next_entry(pending: Seq<(Seq<char>, bool)>, visited: Seq<Seq<char>>) -> (Seq<
    (Seq<char>, bool),
>, Option<(Seq<char>, bool)>)
    decreases pending.len(),
{
    if pending.len() == 0 {
        (pending, None)
    } else if !pending.last().1 && visited.contains(pending.last().0) {
        next_entry(pending.drop_last(), visited)
    } else {
        (pending.drop_last(), Some(pending.last()))
    }
}

/// The occurrences met once `found` is taken: an unexpanded entry is met.
pub open spec fn meets(visited: Seq<Seq<char>>, found: Option<(Seq<char>, bool)>) -> Seq<
    Seq<char>,
> {
    match found {
        Some((id, false)) => visited.push(id),
        _ => visited,
    }
}

/// An occurrence is met at most once: an entry taken unexpanded names an
/// occurrence the walk had not met, the occurrences met stay distinct, and
/// none is ever forgotten.
pub proof fn law_met_once(pending: Seq<(Seq<char>, bool)>, visited: Seq<Seq<char>>)
    requires
        distinct_texts(visited),
    ensures
        next_entry(pending, visited).1 matches Some((id, e)) ==> (!e ==> !visited.contains(id)),
        distinct_texts(meets(visited, next_entry(pending, visited).1)),
        visited.is_prefix_of(meets(visited, next_entry(pending, visited).1)),
    decreases pending.len(),
{
    if pending.len() > 0 && !pending.last().1 && visited.contains(pending.last().0) {
        law_met_once(pending.drop_last(), visited);
    } else {
        let found = next_entry(pending, visited).1;
        let m = meets(visited, found);
        if found matches Some((id, false)) {
            assert forall|i: int, j: int| 0 <= i < j < m.len() implies m[i] != m[j] by {
                if j == visited.len() {
                    assert(visited.contains(visited[i]));
                }
            }
        }
        assert(m.subrange(0, visited.len() as int) =~= visited);
    }
}

/// The state of a preview's walk.
pub struct Expansion {
    pub pending: Vec<(String, bool)>,
    pub visited: Vec<String>,
}

impl Expansion {
    pub open spec fn pending_view(&self) -> Seq<(Seq<char>, bool)> {
        self.pending@.map_values(|e: (String, bool)| entry_view(e))
    }

    pub open spec fn visited_view(&self) -> Seq<Seq<char>> {
        self.visited@.map_values(|s: String| s@)
    }

    /// Every occurrence is met at most once.
    pub open spec fn wf(&self) -> bool {
        distinct_texts(self.visited_view())
    }

    /// A walk from `root`, which is yet to be met.
    pub fn start(root: &str) -> (e: Expansion)
        ensures
            e.wf(),
            e.pending_view() == seq![(root@, false)],
            e.visited_view() == Seq::<Seq<char>>::empty(),
    {
        let mut pending: Vec<(String, bool)> = Vec::new();
        pending.push((root.to_string(), false));
        let e = Expansion { pending, visited: Vec::new() };
        assert(e.pending_view() =~= seq![(root@, false)]);
        assert(e.visited_view() =~= Seq::<Seq<char>>::empty());
        e
    }

    /// Takes the next entry (see `next_entry`), meeting its occurrence if it
    /// is not yet expanded. Taking an entry once more than `MAX_EXPANDED`
    /// occurrences were met is refused with `ExpansionLimit`; an empty stack
    /// gives `None`.
    pub fn next(&mut self) -> (r: Result<Option<(String, bool)>, ErrorCode>)
        requires
            old(self).wf(),
        ensures
            final(self).wf(),
            final(self).pending_view() == next_entry(
                old(self).pending_view(),
                old(self).visited_view(),
            ).0,
            final(self).visited_view() == meets(
                old(self).visited_view(),
                next_entry(old(self).pending_view(), old(self).visited_view()).1,
            ),
            r is Err <==> next_entry(old(self).pending_view(), old(self).visited_view()).1 is Some
                && final(self).visited_view().len() > MAX_EXPANDED,
            r matches Err(e) ==> e == ErrorCode::ExpansionLimit,
            r matches Ok(None) ==> next_entry(
                old(self).pending_view(),
                old(self).visited_view(),
            ).1 is None,
            r matches Ok(Some(e)) ==> next_entry(
                old(self).pending_view(),
                old(self).visited_view(),
            ).1 == Some(entry_view(e)),
    {
        let ghost start = next_entry(self.pending_view(), self.visited_view());
        let ghost met = self.visited_view();
        loop
            invariant
                self.wf(),
                self.visited_view() == met,
                met == old(self).visited_view(),
                start == next_entry(old(self).pending_view(), old(self).visited_view()),
                next_entry(self.pending_view(), self.visited_view()) == start,
            decreases self.pending@.len(),
        {
            let ghost before = self.pending_view();
            match self.pending.pop() {
                None => {
                    return Ok(None);
                },
                Some(entry) => {
                    assert(self.pending_view() =~= before.drop_last());
                    assert(before.last() == entry_view(entry));
                    let (id, expanded) = entry;
                    if !expanded && string_in(&self.visited, id.as_str()) {
                        continue ;
                    }
                    if !expanded {
                        let ghost old_visited = self.visited_view();
                        self.visited.push(id.clone());
                        assert(self.visited_view() =~= old_visited.push(id@));
                        proof {
                            assert forall|i: int, j: int|
                                0 <= i < j < self.visited_view().len() implies self.visited_view()[i]
                                != self.visited_view()[j] by {
                                if j == old_visited.len() {
                                    assert(old_visited[i] == self.visited_view()[i]);
                                    assert(old_visited.contains(old_visited[i]));
                                }
                            }
                        }
                    }
                    if self.visited.len() > MAX_EXPANDED {
                        return Err(ErrorCode::ExpansionLimit);
                    }
                    return Ok(Some((id, expanded)));
                },
            }
        }
    }

    /// Pushes `id` back, now expanded, and above it its prerequisites, so
    /// that the last of them is taken first.
    pub fn expand(&mut self, id: String, prerequisites: Vec<String>)
        requires
            old(self).wf(),
        ensures
            final(self).wf(),
            final(self).visited_view() == old(self).visited_view(),
            final(self).pending_view() == old(self).pending_view().push((id@, true)) + prerequisites@.map_values(
                |p: String| (p@, false),
            ),
    {
        let ghost base = self.pending_view().push((id@, true));
        self.pending.push((id, true));
        assert(self.pending_view() =~= base);
        let mut i: usize = 0;
        while i < prerequisites.len()
            invariant
                self.wf(),
                i <= prerequisites@.len(),
                self.visited_view() == old(self).visited_view(),
                self.pending_view() == base + prerequisites@.take(i as int).map_values(
                    |p: String| (p@, false),
                ),
            decreases prerequisites.len() - i,
        {
            let ghost was = self.pending_view();
            self.pending.push((prerequisites[i].clone(), false));
            assert(self.pending_view() =~= was.push((prerequisites@[i as int]@, false)));
            assert(prerequisites@.take(i + 1).map_values(|p: String| (p@, false)) =~= prerequisites@.take(
                i as int,
            ).map_values(|p: String| (p@, false)).push((prerequisites@[i as int]@, false)));
            i = i + 1;
        }
        assert(prerequisites@.take(i as int) =~= prerequisites@);
    }
}

} // verus!
