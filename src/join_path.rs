use vstd::prelude::*;
use vstd::set_lib::*;

use crate::graph::{
    declared, has_edge, is_first, is_join_path, is_walk, lemma_closed, lemma_first_unique,
    lemma_join_path_extend, lemma_no_exit, lemma_predecessor, lemma_within_mono, lemma_within_zero,
    reachable, shortest_join_path, within,
};
use crate::schema::{copy_keys, keys_view, ForeignKey, ForeignKeyView, Schema, TableView};
use crate::search::{
    entries_view, fresh_state, join_path_of, lemma_search_found, lemma_table_found_own, lemma_table_found_referencing,
    position, search, state_of, visit, visit_level, visit_own, visit_referencing, visit_referencing_in,
};

verus! {

/// The message of the error that `find_join_path` returns.
pub const NO_JOIN_PATH: &'static str = "No join path found";

/// The positions that are marked.
pub open spec fn marked(visited: Seq<bool>) -> Set<int> {
    Set::new(|i: int| 0 <= i < visited.len() && visited[i])
}

/// `v` is not the destination, and the table named `v`, if any, is visited.
pub open spec fn covered(s: Seq<TableView>, to: Seq<char>, visited: Seq<bool>, v: Seq<char>) -> bool {
    v != to && forall|j: int| #[trigger] is_first(s, v, j) ==> visited[j]
}

/// Each entry is a table with a join path of `d` foreign keys to it.
pub open spec fn frontier_ok(s: Seq<TableView>, from: Seq<char>, d: nat, fr: Seq<(usize, Vec<ForeignKey>)>) -> bool {
    forall|e: int|
        0 <= e < fr.len() ==> {
            let i = (#[trigger] fr[e]).0 as int;
            &&& 0 <= i < s.len()
            &&& is_first(s, s[i].name, i)
            &&& is_join_path(s, from, s[i].name, keys_view(fr[e].1@))
            &&& fr[e].1@.len() == d
        }
}

/// Table `i` waits in `next`.
pub open spec fn queued(next: Seq<(usize, Vec<ForeignKey>)>, i: int) -> bool {
    exists|e: int| 0 <= e < next.len() && (#[trigger] next[e]).0 == i
}

/// A table is visited exactly when it is reached within `d` steps or
/// waits in `next`.
pub open spec fn visited_ok(
    s: Seq<TableView>,
    from: Seq<char>,
    d: nat,
    visited: Seq<bool>,
    next: Seq<(usize, Vec<ForeignKey>)>,
) -> bool {
    &&& visited.len() == s.len()
    &&& forall|i: int|
        0 <= i < s.len() ==> (#[trigger] visited[i] <==> is_first(s, s[i].name, i) && (within(
            s,
            from,
            s[i].name,
            d,
        ) || queued(next, i)))
}

/// Every table first reached in exactly `d` steps is in `fr`.
pub open spec fn complete(s: Seq<TableView>, from: Seq<char>, d: nat, fr: Seq<(usize, Vec<ForeignKey>)>) -> bool {
    forall|j: int|
        #[trigger] is_first(s, s[j].name, j) && within(s, from, s[j].name, d) && (d == 0 || !within(
            s,
            from,
            s[j].name,
            (d - 1) as nat,
        )) ==> queued(fr, j)
}

/// Every step out of the first `count` entries of `fr` is covered.
pub open spec fn explored(
    s: Seq<TableView>,
    to: Seq<char>,
    visited: Seq<bool>,
    fr: Seq<(usize, Vec<ForeignKey>)>,
    count: int,
) -> bool {
    forall|e: int, fk: ForeignKeyView, v: Seq<char>|
        0 <= e < count && #[trigger] has_edge(s, s[fr[e].0 as int].name, fk, v) ==> covered(s, to, visited, v)
}

/// Once every entry of the level-`d` frontier is explored, the tables
/// queued in `next` form the level-`d + 1` frontier.
proof fn lemma_next_level(
    s: Seq<TableView>,
    from: Seq<char>,
    to: Seq<char>,
    d: nat,
    visited: Seq<bool>,
    frontier: Seq<(usize, Vec<ForeignKey>)>,
    next: Seq<(usize, Vec<ForeignKey>)>,
)
    requires
        visited_ok(s, from, d, visited, next),
        frontier_ok(s, from, d, frontier),
        frontier_ok(s, from, d + 1, next),
        complete(s, from, d, frontier),
        explored(s, to, visited, frontier, frontier.len() as int),
        !within(s, from, to, d),
    ensures
        visited_ok(s, from, d + 1, visited, Seq::empty()),
        complete(s, from, d + 1, next),
        !within(s, from, to, d + 1),
        next.len() == 0 ==> !reachable(s, from, to),
{
    assert forall|x: Seq<char>| within(s, from, x, d + 1) && !within(s, from, x, d)
        implies covered(s, to, visited, x) by {
        let (w, fk) = lemma_predecessor(s, from, x, d);
        let jw = choose|jw: int| #[trigger] is_first(s, w, jw) && ((s[jw].foreign_keys.contains(fk) && x == fk.to_table) || (
            declared(s, fk) && fk.to_table == w && x == fk.from_table));
        assert(is_first(s, s[jw].name, jw));
        let e = choose|e: int| 0 <= e < frontier.len() && (#[trigger] frontier[e]).0 == jw;
        assert(has_edge(s, s[frontier[e].0 as int].name, fk, x));
    }
    assert forall|i: int| #[trigger] is_first(s, s[i].name, i) && within(s, from, s[i].name, d + 1)
        implies visited[i] by {
        if !within(s, from, s[i].name, d) {
            assert(covered(s, to, visited, s[i].name));
        }
    }
    assert forall|i: int| 0 <= i < s.len()
        implies (#[trigger] visited[i] <==> is_first(s, s[i].name, i) && (within(
        s,
        from,
        s[i].name,
        d + 1,
    ) || queued(Seq::empty(), i))) by {
        if visited[i] {
            if within(s, from, s[i].name, d) {
                lemma_within_mono(s, from, s[i].name, d, d + 1);
            } else {
                let e = choose|e: int| 0 <= e < next.len() && (#[trigger] next[e]).0 == i;
                assert(keys_view(next[e].1@).len() == d + 1);
                assert(is_join_path(s, from, s[i].name, keys_view(next[e].1@)));
            }
        }
    }
    if within(s, from, to, d + 1) {
        assert(covered(s, to, visited, to));
    }
    if next.len() == 0 {
        assert forall|q: Seq<ForeignKeyView>| !#[trigger] is_join_path(s, from, to, q) by {
            if is_join_path(s, from, to, q) {
                assert forall|u: Seq<char>, i: int| #[trigger] is_first(s, u, i) && within(s, from, u, d + 1)
                    implies within(s, from, u, d) by {
                    assert(is_first(s, s[i].name, i));
                    assert(visited[i]);
                }
                lemma_closed(s, from, to, q, d);
            }
        }
    }
}

proof fn lemma_marked_bound(visited: Seq<bool>)
    ensures
        marked(visited).finite(),
        marked(visited).len() <= visited.len(),
{
    let all = set_int_range(0, visited.len() as int);
    lemma_int_range(0, visited.len() as int);
    assert(marked(visited).subset_of(all));
    lemma_len_subset(marked(visited), all);
}

proof fn lemma_marked_insert(visited: Seq<bool>, j: int)
    requires
        0 <= j < visited.len(),
        !visited[j],
    ensures
        marked(visited.update(j, true)) == marked(visited).insert(j),
        marked(visited.update(j, true)).len() == marked(visited).len() + 1,
{
    lemma_marked_bound(visited);
    assert(marked(visited.update(j, true)) =~= marked(visited).insert(j));
}

impl Schema {
    /// Handles the step along `fk` to `v` from a table reached by `path`:
    /// returns the join path when `v` is the destination, and otherwise
    /// queues the table named `v` unless it was visited.
    fn discover(
        &self,
        to: &String,
        path: &Vec<ForeignKey>,
        fk: &ForeignKey,
        v: &String,
        visited: &mut Vec<bool>,
        next: &mut Vec<(usize, Vec<ForeignKey>)>,
        Ghost(from): Ghost<Seq<char>>,
        Ghost(d): Ghost<nat>,
        Ghost(u): Ghost<Seq<char>>,
        Ghost(base): Ghost<nat>,
    ) -> (found: Option<Vec<ForeignKey>>)
        requires
            visited_ok(self@, from, d, old(visited)@, old(next)@),
            frontier_ok(self@, from, d + 1, old(next)@),
            marked(old(visited)@).len() == base + old(next)@.len(),
            is_join_path(self@, from, u, keys_view(path@)),
            path@.len() == d,
            has_edge(self@, u, fk@, v@),
            !within(self@, from, to@, d),
        ensures
            match found {
                Some(p) => shortest_join_path(self@, from, to@, keys_view(p@)),
                None => {
                    &&& visited_ok(self@, from, d, final(visited)@, final(next)@)
                    &&& frontier_ok(self@, from, d + 1, final(next)@)
                    &&& marked(final(visited)@).len() == base + final(next)@.len()
                    &&& covered(self@, to@, final(visited)@, v@)
                    &&& forall|i: int| 0 <= i < old(visited)@.len() && old(visited)@[i]
                        ==> #[trigger] final(visited)@[i]
                },
            },
            match found {
                Some(p) => visit(self@, to@, state_of(old(visited)@, old(next)@), keys_view(path@), fk@, v@).found
                    == Some(keys_view(p@)),
                None => visit(self@, to@, state_of(old(visited)@, old(next)@), keys_view(path@), fk@, v@)
                    == state_of(final(visited)@, final(next)@),
            },
    {
        let ghost s = self@;
        let mut extended = copy_keys(path);
        extended.push(fk.clone());
        proof {
            assert(keys_view(extended@) =~= keys_view(path@).push(fk@));
            lemma_join_path_extend(s, from, u, fk@, v@, keys_view(path@));
        }
        if *v == *to {
            proof {
                assert forall|q: Seq<ForeignKeyView>| #[trigger] is_join_path(s, from, to@, q)
                    implies keys_view(extended@).len() <= q.len() by {
                    if q.len() <= d {
                        assert(within(s, from, to@, d));
                    }
                }
            }
            return Some(extended);
        }
        let ghost st = state_of(visited@, next@);
        match self.position_of(v) {
            Some(j) => {
                proof {
                    lemma_first_unique(s, v@, j as int, position(s, v@));
                }
                if !visited[j] {
                    proof {
                        lemma_marked_insert(visited@, j as int);
                    }
                    let ghost old_next = next@;
                    visited.set(j, true);
                    next.push((j, extended));
                    proof {
                        assert forall|i: int| 0 <= i < s.len()
                            implies (#[trigger] visited@[i] <==> is_first(s, s[i].name, i) && (within(s, from, s[i].name, d) || queued(next@, i))) by {
                            if i == j {
                                assert(next@[next@.len() - 1].0 == i);
                            } else if queued(next@, i) {
                                let e = choose|e: int| 0 <= e < next@.len() && (#[trigger] next@[e]).0 == i;
                                assert(e < old_next.len());
                                assert(old_next[e].0 == i);
                            } else {
                                assert forall|e: int| 0 <= e < old_next.len()
                                    implies (#[trigger] old_next[e]).0 != i by {
                                    assert(next@[e] == old_next[e]);
                                }
                            }
                        }
                        assert forall|e: int| 0 <= e < next@.len() implies {
                            let i = (#[trigger] next@[e]).0 as int;
                            &&& 0 <= i < s.len()
                            &&& is_first(s, s[i].name, i)
                            &&& is_join_path(s, from, s[i].name, keys_view(next@[e].1@))
                            &&& next@[e].1@.len() == d + 1
                        } by {
                            if e < old_next.len() {
                                assert(next@[e] == old_next[e]);
                            }
                        }
                        assert(entries_view(next@) =~= entries_view(old_next).push((j as int, keys_view(extended@))));
                    }
                }
                proof {
                    assert forall|jj: int| #[trigger] is_first(s, v@, jj) implies visited@[jj] by {
                        lemma_first_unique(s, v@, j as int, jj);
                    }
                }
            },
            None => {},
        }
        None
    }

    /// A shortest chain of foreign keys that joins table `from` to table `to`,
    /// each foreign key usable in either direction. Ties go to the chain met
    /// first by a breadth-first search that tries a table's own foreign keys
    /// before those of every table, in order, that reference it.
    pub fn find_join_path(&self, from: &str, to: &str) -> (r: Result<Vec<ForeignKey>, &'static str>)
        ensures
            r is Ok <==> reachable(self@, from@, to@),
            match r {
                Ok(p) => shortest_join_path(self@, from@, to@, keys_view(p@)),
                Err(e) => e == NO_JOIN_PATH,
            },
            from@ == to@ ==> (r matches Ok(p) && p@.len() == 0),
            match r {
                Ok(p) => join_path_of(self@, from@, to@) == Some(keys_view(p@)),
                Err(_) => join_path_of(self@, from@, to@) is None,
            },
    {
        let ghost s = self@;
        let source = from.to_owned();
        let dest = to.to_owned();
        if source == dest {
            let p: Vec<ForeignKey> = Vec::new();
            proof {
                assert(keys_view(p@) =~= Seq::empty());
                lemma_within_zero(s, from@, to@);
                let q = choose|q: Seq<ForeignKeyView>| q.len() <= 0 && #[trigger] is_join_path(s, from@, to@, q);
                assert(q =~= keys_view(p@));
            }
            return Ok(p);
        }
        let start = match self.position_of(&source) {
            Some(i) => i,
            None => {
                proof {
                    assert forall|q: Seq<ForeignKeyView>| !#[trigger] is_join_path(s, from@, to@, q) by {
                        if is_join_path(s, from@, to@, q) {
                            lemma_no_exit(s, from@, to@, q);
                        }
                    }
                }
                return Err(NO_JOIN_PATH);
            },
        };
        let n = self.tables.len();
        let mut visited: Vec<bool> = Vec::new();
        let mut i: usize = 0;
        while i < n
            invariant
                i <= n,
                visited@.len() == i,
                forall|j: int| 0 <= j < i ==> visited@[j] == (j == start),
            decreases n - i,
        {
            visited.push(i == start);
            i = i + 1;
        }
        let mut frontier: Vec<(usize, Vec<ForeignKey>)> = Vec::new();
        frontier.push((start, Vec::new()));
        let ghost mut d: nat = 0;
        proof {
            lemma_within_zero(s, from@, to@);
            assert(is_walk(s, from@, from@, Seq::empty(), seq![from@]));
            assert(is_join_path(s, from@, from@, Seq::empty()));
            assert(keys_view(frontier@[0].1@) =~= Seq::empty());
            assert forall|j: int| 0 <= j < s.len()
                implies (#[trigger] visited@[j] <==> is_first(s, s[j].name, j) && (within(s, from@, s[j].name, 0) || queued(Seq::empty(), j))) by {
                lemma_within_zero(s, from@, s[j].name);
                if is_first(s, s[j].name, j) && s[j].name == from@ {
                    lemma_first_unique(s, from@, j, start as int);
                }
            }
            lemma_marked_bound(visited@);
            lemma_first_unique(s, from@, start as int, position(s, from@));
            assert(visited@ =~= Seq::new(s.len(), |i: int| i == position(s, from@)));
            assert(entries_view(frontier@) =~= seq![(position(s, from@), Seq::<ForeignKeyView>::empty())]);
            assert(marked(visited@).contains(start as int));
            assert(marked(visited@).remove(start as int).len() + 1 == marked(visited@).len());
        }
        loop
            invariant
                s == self@,
                dest@ == to@,
                from@ != to@,
                n == s.len(),
                visited_ok(s, from@, d, visited@, Seq::empty()),
                frontier_ok(s, from@, d, frontier@),
                complete(s, from@, d, frontier@),
                !within(s, from@, to@, d),
                marked(visited@).len() <= n,
                marked(visited@).len() >= d + 1,
                frontier@.len() > 0,
                search(s, to@, visited@, entries_view(frontier@), (n - d) as nat) == join_path_of(s, from@, to@),
            decreases n - marked(visited@).len(),
        {
            let ghost base = marked(visited@).len();
            let ghost vis_level = visited@;
            let ghost fr_v = entries_view(frontier@);
            let mut next: Vec<(usize, Vec<ForeignKey>)> = Vec::new();
            assert(entries_view(next@) =~= Seq::empty());
            let mut e: usize = 0;
            while e < frontier.len()
                invariant
                    s == self@,
                    dest@ == to@,
                    from@ != to@,
                    n == s.len(),
                    e <= frontier.len(),
                    visited_ok(s, from@, d, visited@, next@),
                    frontier_ok(s, from@, d, frontier@),
                    frontier_ok(s, from@, d + 1, next@),
                    marked(visited@).len() == base + next@.len(),
                    !within(s, from@, to@, d),
                    complete(s, from@, d, frontier@),
                    explored(s, to@, visited@, frontier@, e as int),
                    fr_v == entries_view(frontier@),
                    d < n,
                    search(s, to@, vis_level, fr_v, (n - d) as nat) == join_path_of(s, from@, to@),
                    visit_level(s, to@, fresh_state(vis_level), fr_v, e as int) == state_of(visited@, next@),
                decreases frontier.len() - e,
            {
                let u = frontier[e].0;
                let path = &frontier[e].1;
                let ghost un = s[u as int].name;
                let ghost vis_entry = visited@;
                let ghost st_e = state_of(visited@, next@);
                let ghost pv = keys_view(path@);
                let fks = &self.tables[u].foreign_keys;
                let mut k: usize = 0;
                while k < fks.len()
                    invariant
                        s == self@,
                        dest@ == to@,
                        from@ != to@,
                        n == s.len(),
                        u < n,
                        un == s[u as int].name,
                        is_first(s, un, u as int),
                        fks@ == self.tables@[u as int].foreign_keys@,
                        is_join_path(s, from@, un, keys_view(path@)),
                        path@.len() == d,
                        k <= fks.len(),
                        visited_ok(s, from@, d, visited@, next@),
                        frontier_ok(s, from@, d + 1, next@),
                        marked(visited@).len() == base + next@.len(),
                        !within(s, from@, to@, d),
                        forall|j: int| 0 <= j < vis_entry.len() && vis_entry[j] ==> #[trigger] visited@[j],
                        vis_entry.len() == n,
                        frontier_ok(s, from@, d, frontier@),
                        e < frontier@.len(),
                        explored(s, to@, vis_entry, frontier@, e as int),
                        forall|k2: int| 0 <= k2 < k
                            ==> covered(s, to@, visited@, (#[trigger] fks@[k2]).to_table@),
                        fr_v == entries_view(frontier@),
                        d < n,
                        search(s, to@, vis_level, fr_v, (n - d) as nat) == join_path_of(s, from@, to@),
                        st_e == visit_level(s, to@, fresh_state(vis_level), fr_v, e as int),
                        pv == keys_view(path@),
                        fr_v[e as int] == (u as int, pv),
                        visit_own(s, to@, st_e, u as int, pv, k as int) == state_of(visited@, next@),
                    decreases fks.len() - k,
                {
                    let fk = &fks[k];
                    proof {
                        assert(s[u as int].foreign_keys[k as int] == fk@);
                        assert(has_edge(s, un, fk@, fk.to_table@));
                    }
                    let ghost before = visited@;
                    match self.discover(&dest, path, fk, &fk.to_table, &mut visited, &mut next,
                        Ghost(from@), Ghost(d), Ghost(un), Ghost(base)) {
                        Some(p) => {
                            proof {
                                lemma_table_found_own(s, to@, st_e, u as int, pv, k as int + 1);
                                lemma_search_found(s, to@, vis_level, fr_v, (n - d) as nat, e as int, keys_view(p@));
                            }
                            return Ok(p);
                        },
                        None => {},
                    }
                    proof {
                        assert forall|k2: int| 0 <= k2 < k + 1
                            implies covered(s, to@, visited@, (#[trigger] fks@[k2]).to_table@) by {
                            if k2 < k {
                                assert(covered(s, to@, before, fks@[k2].to_table@));
                            }
                        }
                    }
                    k = k + 1;
                }
                let ghost st_own = state_of(visited@, next@);
                let mut t: usize = 0;
                while t < n
                    invariant
                        s == self@,
                        dest@ == to@,
                        from@ != to@,
                        n == s.len(),
                        u < n,
                        un == s[u as int].name,
                        is_first(s, un, u as int),
                        fks@ == self.tables@[u as int].foreign_keys@,
                        is_join_path(s, from@, un, keys_view(path@)),
                        path@.len() == d,
                        t <= n,
                        visited_ok(s, from@, d, visited@, next@),
                        frontier_ok(s, from@, d + 1, next@),
                        marked(visited@).len() == base + next@.len(),
                        !within(s, from@, to@, d),
                        forall|j: int| 0 <= j < vis_entry.len() && vis_entry[j] ==> #[trigger] visited@[j],
                        vis_entry.len() == n,
                        frontier_ok(s, from@, d, frontier@),
                        e < frontier@.len(),
                        explored(s, to@, vis_entry, frontier@, e as int),
                        forall|k2: int| 0 <= k2 < fks@.len()
                            ==> covered(s, to@, visited@, (#[trigger] fks@[k2]).to_table@),
                        forall|t2: int, k2: int|
                            0 <= t2 < t && 0 <= k2 < s[t2].foreign_keys.len() && (#[trigger] s[t2].foreign_keys[k2]).to_table == un
                                ==> covered(s, to@, visited@, s[t2].foreign_keys[k2].from_table),
                        fr_v == entries_view(frontier@),
                        d < n,
                        search(s, to@, vis_level, fr_v, (n - d) as nat) == join_path_of(s, from@, to@),
                        st_e == visit_level(s, to@, fresh_state(vis_level), fr_v, e as int),
                        pv == keys_view(path@),
                        fr_v[e as int] == (u as int, pv),
                        st_own == visit_own(s, to@, st_e, u as int, pv, fks@.len() as int),
                        visit_referencing(s, to@, st_own, u as int, pv, t as int) == state_of(visited@, next@),
                    decreases n - t,
                {
                    let tfks = &self.tables[t].foreign_keys;
                    let ghost st_ref = state_of(visited@, next@);
                    let mut k: usize = 0;
                    while k < tfks.len()
                        invariant
                            s == self@,
                            dest@ == to@,
                            from@ != to@,
                            n == s.len(),
                            u < n,
                            t < n,
                            un == s[u as int].name,
                            is_first(s, un, u as int),
                            fks@ == self.tables@[u as int].foreign_keys@,
                            tfks@ == self.tables@[t as int].foreign_keys@,
                            is_join_path(s, from@, un, keys_view(path@)),
                            path@.len() == d,
                            k <= tfks.len(),
                            visited_ok(s, from@, d, visited@, next@),
                            frontier_ok(s, from@, d + 1, next@),
                            marked(visited@).len() == base + next@.len(),
                            !within(s, from@, to@, d),
                            forall|j: int| 0 <= j < vis_entry.len() && vis_entry[j]
                                ==> #[trigger] visited@[j],
                            vis_entry.len() == n,
                            frontier_ok(s, from@, d, frontier@),
                            e < frontier@.len(),
                            explored(s, to@, vis_entry, frontier@, e as int),
                            forall|k2: int| 0 <= k2 < fks@.len()
                                ==> covered(s, to@, visited@, (#[trigger] fks@[k2]).to_table@),
                            forall|t2: int, k2: int|
                                0 <= t2 < t && 0 <= k2 < s[t2].foreign_keys.len() && (#[trigger] s[t2].foreign_keys[k2]).to_table == un
                                    ==> covered(s, to@, visited@, s[t2].foreign_keys[k2].from_table),
                            forall|k2: int|
                                0 <= k2 < k && (#[trigger] s[t as int].foreign_keys[k2]).to_table == un
                                    ==> covered(s, to@, visited@, s[t as int].foreign_keys[k2].from_table),
                            fr_v == entries_view(frontier@),
                            d < n,
                            search(s, to@, vis_level, fr_v, (n - d) as nat) == join_path_of(s, from@, to@),
                            st_e == visit_level(s, to@, fresh_state(vis_level), fr_v, e as int),
                            pv == keys_view(path@),
                            fr_v[e as int] == (u as int, pv),
                            st_own == visit_own(s, to@, st_e, u as int, pv, fks@.len() as int),
                            st_ref == visit_referencing(s, to@, st_own, u as int, pv, t as int),
                            visit_referencing_in(s, to@, st_ref, u as int, pv, t as int, k as int) == state_of(visited@, next@),
                        decreases tfks.len() - k,
                    {
                        let fk = &tfks[k];
                        proof {
                            assert(s[t as int].foreign_keys[k as int] == fk@);
                        }
                        if fk.to_table == self.tables[u].name {
                            proof {
                                assert(declared(s, fk@));
                                assert(has_edge(s, un, fk@, fk.from_table@));
                            }
                            let ghost before = visited@;
                            match self.discover(&dest, path, fk, &fk.from_table, &mut visited, &mut next,
                                Ghost(from@), Ghost(d), Ghost(un), Ghost(base)) {
                                Some(p) => {
                                    proof {
                                        lemma_table_found_referencing(s, to@, st_e, u as int, pv, t as int, k as int + 1);
                                        lemma_search_found(s, to@, vis_level, fr_v, (n - d) as nat, e as int, keys_view(p@));
                                    }
                                    return Ok(p);
                                },
                                None => {},
                            }
                            proof {
                                assert forall|k2: int| 0 <= k2 < fks@.len()
                                    implies covered(s, to@, visited@, (#[trigger] fks@[k2]).to_table@) by {
                                    assert(covered(s, to@, before, fks@[k2].to_table@));
                                }
                                assert forall|t2: int, k2: int|
                                    0 <= t2 < t && 0 <= k2 < s[t2].foreign_keys.len() && (#[trigger] s[t2].foreign_keys[k2]).to_table == un
                                    implies covered(s, to@, visited@, s[t2].foreign_keys[k2].from_table) by {
                                    assert(covered(s, to@, before, s[t2].foreign_keys[k2].from_table));
                                }
                                assert forall|k2: int|
                                    0 <= k2 < k + 1 && (#[trigger] s[t as int].foreign_keys[k2]).to_table == un
                                   
                                        implies covered(s, to@, visited@, s[t as int].foreign_keys[k2].from_table) by {
                                    if k2 < k {
                                        assert(covered(s, to@, before, s[t as int].foreign_keys[k2].from_table));
                                    }
                                }
                            }
                        }
                        k = k + 1;
                    }
                    t = t + 1;
                }
                proof {
                    assert forall|e2: int, fk: ForeignKeyView, v: Seq<char>|
                        0 <= e2 < e + 1 && #[trigger] has_edge(s, s[frontier@[e2].0 as int].name, fk, v)
                            implies covered(s, to@, visited@, v) by {
                        if e2 < e {
                            assert(covered(s, to@, vis_entry, v));
                        } else {
                            let w = choose|w: int| #[trigger] is_first(s, un, w) && ((s[w].foreign_keys.contains(fk) && v == fk.to_table) || (
                                declared(s, fk) && fk.to_table == un && v == fk.from_table));
                            lemma_first_unique(s, un, w, u as int);
                            if s[w].foreign_keys.contains(fk) && v == fk.to_table {
                                let k2 = choose|k2: int| 0 <= k2 < s[w].foreign_keys.len() && s[w].foreign_keys[k2] == fk;
                                assert(fks@[k2]@ == fk);
                            } else {
                                let (t2, k2) = choose|t2: int, k2: int| 0 <= t2 < s.len() && 0 <= k2 < s[t2].foreign_keys.len() && #[trigger] s[t2].foreign_keys[k2] == fk;
                                assert(s[t2].foreign_keys[k2].to_table == un);
                            }
                        }
                    }
                }
                e = e + 1;
            }
            proof {
                lemma_next_level(s, from@, to@, d, visited@, frontier@, next@);
                lemma_marked_bound(visited@);
                assert(entries_view(next@).len() == next@.len());
                assert(fr_v.len() == frontier@.len());
                assert(visit_level(s, to@, fresh_state(vis_level), fr_v, fr_v.len() as int) == state_of(visited@, next@));
                assert(search(s, to@, vis_level, fr_v, (n - d) as nat) == search(s, to@, visited@, entries_view(next@), (n - d - 1) as nat));
            }
            if next.len() == 0 {
                return Err(NO_JOIN_PATH);
            }
            frontier = next;
            proof {
                d = d + 1;
            }
        }
    }
}

} // verus!
