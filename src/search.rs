use vstd::prelude::*;

use crate::graph::{has_table, is_first};
use crate::schema::{keys_view, ForeignKey, ForeignKeyView, TableView};

verus! {

/// Where a breadth-first search stands inside one level: the tables it has
/// visited, those it queued for the next level with the path to each, and
/// the path to the destination once met.
pub struct SearchState {
    pub visited: Seq<bool>,
    pub next: Seq<(int, Seq<ForeignKeyView>)>,
    pub found: Option<Seq<ForeignKeyView>>,
}

/// The frontier entries as table positions with paths.
pub open spec fn entries_view(fr: Seq<(usize, Vec<ForeignKey>)>) -> Seq<(int, Seq<ForeignKeyView>)> {
    fr.map_values(|x: (usize, Vec<ForeignKey>)| (x.0 as int, keys_view(x.1@)))
}

/// A search state that has not met the destination.
pub open spec fn state_of(visited: Seq<bool>, next: Seq<(usize, Vec<ForeignKey>)>) -> SearchState {
    SearchState { visited, next: entries_view(next), found: None }
}

/// The state at the start of a level, with `visited` as it stands.
pub open spec fn fresh_state(visited: Seq<bool>) -> SearchState {
    SearchState { visited, next: Seq::empty(), found: None }
}

/// The position of the table named `name`, where there is one.
pub open spec fn position(s: Seq<TableView>, name: Seq<char>) -> int {
    choose|j: int| is_first(s, name, j)
}

/// The search takes the step along `fk` to `v` from a table reached by
/// `path`: `v` is the destination, or its table, when not yet visited, is
/// queued.
pub open spec fn visit(
    s: Seq<TableView>,
    to: Seq<char>,
    st: SearchState,
    path: Seq<ForeignKeyView>,
    fk: ForeignKeyView,
    v: Seq<char>,
) -> SearchState {
    if st.found is Some {
        st
    } else if v == to {
        SearchState { visited: st.visited, next: st.next, found: Some(path.push(fk)) }
    } else if has_table(s, v) && !st.visited[position(s, v)] {
        SearchState {
            visited: st.visited.update(position(s, v), true),
            next: st.next.push((position(s, v), path.push(fk))),
            found: None,
        }
    } else {
        st
    }
}

/// The steps along the first `k` foreign keys that table `u` declares.
pub open spec fn visit_own(
    s: Seq<TableView>,
    to: Seq<char>,
    st: SearchState,
    u: int,
    path: Seq<ForeignKeyView>,
    k: int,
) -> SearchState
    decreases k,
{
    if k <= 0 {
        st
    } else {
        let fk = s[u].foreign_keys[k - 1];
        visit(s, to, visit_own(s, to, st, u, path, k - 1), path, fk, fk.to_table)
    }
}

/// The steps back to table `t` along those of its first `k` foreign keys
/// that reference table `u`.
pub open spec fn visit_referencing_in(
    s: Seq<TableView>,
    to: Seq<char>,
    st: SearchState,
    u: int,
    path: Seq<ForeignKeyView>,
    t: int,
    k: int,
) -> SearchState
    decreases k,
{
    if k <= 0 {
        st
    } else {
        let prev = visit_referencing_in(s, to, st, u, path, t, k - 1);
        let fk = s[t].foreign_keys[k - 1];
        if fk.to_table == s[u].name {
            visit(s, to, prev, path, fk, fk.from_table)
        } else {
            prev
        }
    }
}

/// The steps back along the foreign keys of the first `t` tables that
/// reference table `u`.
pub open spec fn visit_referencing(
    s: Seq<TableView>,
    to: Seq<char>,
    st: SearchState,
    u: int,
    path: Seq<ForeignKeyView>,
    t: int,
) -> SearchState
    decreases t,
{
    if t <= 0 {
        st
    } else {
        visit_referencing_in(
            s,
            to,
            visit_referencing(s, to, st, u, path, t - 1),
            u,
            path,
            t - 1,
            s[t - 1].foreign_keys.len() as int,
        )
    }
}

/// All steps out of table `u`: its own foreign keys first, then those of
/// every table, in order, that reference it.
pub open spec fn visit_table(
    s: Seq<TableView>,
    to: Seq<char>,
    st: SearchState,
    u: int,
    path: Seq<ForeignKeyView>,
) -> SearchState {
    visit_referencing(
        s,
        to,
        visit_own(s, to, st, u, path, s[u].foreign_keys.len() as int),
        u,
        path,
        s.len() as int,
    )
}

/// All steps out of the first `e` entries of the frontier `fr`.
pub open spec fn visit_level(
    s: Seq<TableView>,
    to: Seq<char>,
    st: SearchState,
    fr: Seq<(int, Seq<ForeignKeyView>)>,
    e: int,
) -> SearchState
    decreases e,
{
    if e <= 0 {
        st
    } else {
        visit_table(s, to, visit_level(s, to, st, fr, e - 1), fr[e - 1].0, fr[e - 1].1)
    }
}

/// The path that a breadth-first search finds to `to` from the frontier
/// `fr`, within `fuel` more levels.
pub open spec fn search(
    s: Seq<TableView>,
    to: Seq<char>,
    visited: Seq<bool>,
    fr: Seq<(int, Seq<ForeignKeyView>)>,
    fuel: nat,
) -> Option<Seq<ForeignKeyView>>
    decreases fuel,
{
    if fuel == 0 || fr.len() == 0 {
        None
    } else {
        let st = visit_level(s, to, fresh_state(visited), fr, fr.len() as int);
        if st.found is Some {
            st.found
        } else {
            search(s, to, st.visited, st.next, (fuel - 1) as nat)
        }
    }
}

/// The join path from `from` to `to` that a breadth-first search meets
/// first, visiting each table at most once and trying a table's own
/// foreign keys before those of every table, in order, that reference it.
pub open spec fn join_path_of(s: Seq<TableView>, from: Seq<char>, to: Seq<char>) -> Option<Seq<ForeignKeyView>> {
    if from == to {
        Some(Seq::empty())
    } else if !has_table(s, from) {
        None
    } else {
        let start = position(s, from);
        search(
            s,
            to,
            Seq::new(s.len(), |i: int| i == start),
            seq![(start, Seq::<ForeignKeyView>::empty())],
            s.len(),
        )
    }
}

pub proof fn lemma_own_stays(
    s: Seq<TableView>,
    to: Seq<char>,
    st: SearchState,
    u: int,
    path: Seq<ForeignKeyView>,
    k: int,
    m: int,
)
    requires
        0 <= k <= m,
        visit_own(s, to, st, u, path, k).found is Some,
    ensures
        visit_own(s, to, st, u, path, m) == visit_own(s, to, st, u, path, k),
    decreases m,
{
    if m > k {
        lemma_own_stays(s, to, st, u, path, k, m - 1);
    }
}

pub proof fn lemma_referencing_in_stays(
    s: Seq<TableView>,
    to: Seq<char>,
    st: SearchState,
    u: int,
    path: Seq<ForeignKeyView>,
    t: int,
    k: int,
    m: int,
)
    requires
        0 <= k <= m,
        visit_referencing_in(s, to, st, u, path, t, k).found is Some,
    ensures
        visit_referencing_in(s, to, st, u, path, t, m) == visit_referencing_in(s, to, st, u, path, t, k),
    decreases m,
{
    if m > k {
        lemma_referencing_in_stays(s, to, st, u, path, t, k, m - 1);
    }
}

pub proof fn lemma_referencing_stays(
    s: Seq<TableView>,
    to: Seq<char>,
    st: SearchState,
    u: int,
    path: Seq<ForeignKeyView>,
    t: int,
    m: int,
)
    requires
        0 <= t <= m,
        visit_referencing(s, to, st, u, path, t).found is Some,
    ensures
        visit_referencing(s, to, st, u, path, m) == visit_referencing(s, to, st, u, path, t),
    decreases m,
{
    if m > t {
        lemma_referencing_stays(s, to, st, u, path, t, m - 1);
        let prev = visit_referencing(s, to, st, u, path, m - 1);
        lemma_referencing_in_stays(s, to, prev, u, path, m - 1, 0, s[m - 1].foreign_keys.len() as int);
    }
}

pub proof fn lemma_table_stays(s: Seq<TableView>, to: Seq<char>, st: SearchState, u: int, path: Seq<ForeignKeyView>)
    requires
        st.found is Some,
    ensures
        visit_table(s, to, st, u, path) == st,
{
    lemma_own_stays(s, to, st, u, path, 0, s[u].foreign_keys.len() as int);
    lemma_referencing_stays(s, to, st, u, path, 0, s.len() as int);
}

pub proof fn lemma_level_stays(
    s: Seq<TableView>,
    to: Seq<char>,
    st: SearchState,
    fr: Seq<(int, Seq<ForeignKeyView>)>,
    e: int,
    m: int,
)
    requires
        0 <= e <= m,
        visit_level(s, to, st, fr, e).found is Some,
    ensures
        visit_level(s, to, st, fr, m) == visit_level(s, to, st, fr, e),
    decreases m,
{
    if m > e {
        lemma_level_stays(s, to, st, fr, e, m - 1);
        lemma_table_stays(s, to, visit_level(s, to, st, fr, m - 1), fr[m - 1].0, fr[m - 1].1);
    }
}

/// Once the steps out of table `u` meet the destination, the rest of the
/// table keeps that path.
pub proof fn lemma_table_found_own(
    s: Seq<TableView>,
    to: Seq<char>,
    st: SearchState,
    u: int,
    path: Seq<ForeignKeyView>,
    k: int,
)
    requires
        0 <= k <= s[u].foreign_keys.len(),
        visit_own(s, to, st, u, path, k).found is Some,
    ensures
        visit_table(s, to, st, u, path) == visit_own(s, to, st, u, path, k),
{
    lemma_own_stays(s, to, st, u, path, k, s[u].foreign_keys.len() as int);
    let own = visit_own(s, to, st, u, path, k);
    lemma_referencing_stays(s, to, own, u, path, 0, s.len() as int);
}

pub proof fn lemma_table_found_referencing(
    s: Seq<TableView>,
    to: Seq<char>,
    st: SearchState,
    u: int,
    path: Seq<ForeignKeyView>,
    t: int,
    k: int,
)
    requires
        0 <= t < s.len(),
        0 <= k <= s[t].foreign_keys.len(),
        visit_referencing_in(
            s,
            to,
            visit_referencing(s, to, visit_own(s, to, st, u, path, s[u].foreign_keys.len() as int), u, path, t),
            u,
            path,
            t,
            k,
        ).found is Some,
    ensures
        visit_table(s, to, st, u, path) == visit_referencing_in(
            s,
            to,
            visit_referencing(s, to, visit_own(s, to, st, u, path, s[u].foreign_keys.len() as int), u, path, t),
            u,
            path,
            t,
            k,
        ),
{
    let own = visit_own(s, to, st, u, path, s[u].foreign_keys.len() as int);
    let before = visit_referencing(s, to, own, u, path, t);
    lemma_referencing_in_stays(s, to, before, u, path, t, k, s[t].foreign_keys.len() as int);
    lemma_referencing_stays(s, to, own, u, path, t + 1, s.len() as int);
}

/// Once a table of the level meets the destination, the search returns
/// that path.
pub proof fn lemma_search_found(
    s: Seq<TableView>,
    to: Seq<char>,
    visited: Seq<bool>,
    fr: Seq<(int, Seq<ForeignKeyView>)>,
    fuel: nat,
    e: int,
    p: Seq<ForeignKeyView>,
)
    requires
        0 <= e < fr.len(),
        fuel > 0,
        visit_table(
            s,
            to,
            visit_level(s, to, fresh_state(visited), fr, e),
            fr[e].0,
            fr[e].1,
        ).found == Some(p),
    ensures
        search(s, to, visited, fr, fuel) == Some(p),
{
    let st0 = fresh_state(visited);
    lemma_level_stays(s, to, st0, fr, e + 1, fr.len() as int);
}

} // verus!
