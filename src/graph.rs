use vstd::prelude::*;

use crate::schema::{unique_names, ForeignKeyView, TableView};

verus! {

/// `i` is the first table of `s` named `name`: the one that a lookup by name finds.
pub open spec fn is_first(s: Seq<TableView>, name: Seq<char>, i: int) -> bool {
    0 <= i < s.len() && s[i].name == name && forall|j: int|
        0 <= j < i ==> #[trigger] s[j].name != name
}

/// `name` is the name of a table of `s`.
pub open spec fn has_table(s: Seq<TableView>, name: Seq<char>) -> bool {
    exists|i: int| #[trigger] is_first(s, name, i)
}

/// `fk` is declared by some table of `s`.
pub open spec fn declared(s: Seq<TableView>, fk: ForeignKeyView) -> bool {
    exists|i: int, k: int|
        0 <= i < s.len() && 0 <= k < s[i].foreign_keys.len() && #[trigger] s[i].foreign_keys[k] == fk
}

/// One step of a join: from table `u` along `fk` to `v`. Either `fk` is one
/// of `u`'s own foreign keys and `v` the table it references, or `fk` is any
/// foreign key that references `u` and `v` the table that declares it.
/// Only a table of the schema can be left; a name that is no table can
/// only be arrived at.
pub open spec fn has_edge(s: Seq<TableView>, u: Seq<char>, fk: ForeignKeyView, v: Seq<char>) -> bool {
    exists|i: int|
        #[trigger] is_first(s, u, i) && ((s[i].foreign_keys.contains(fk) && v == fk.to_table) || (
        declared(s, fk) && fk.to_table == u && v == fk.from_table))
}

/// `p` leads from `from` to `to` through the tables `ns`.
pub open spec fn is_walk(
    s: Seq<TableView>,
    from: Seq<char>,
    to: Seq<char>,
    p: Seq<ForeignKeyView>,
    ns: Seq<Seq<char>>,
) -> bool {
    &&& ns.len() == p.len() + 1
    &&& ns[0] == from
    &&& ns.last() == to
    &&& forall|k: int| 0 <= k < p.len() ==> has_edge(s, ns[k], #[trigger] p[k], ns[k + 1])
}

/// `p` is a chain of foreign keys that joins `from` to `to`.
pub open spec fn is_join_path(s: Seq<TableView>, from: Seq<char>, to: Seq<char>, p: Seq<ForeignKeyView>) -> bool {
    exists|ns: Seq<Seq<char>>| #[trigger] is_walk(s, from, to, p, ns)
}

/// Some chain of foreign keys joins `from` to `to`.
pub open spec fn reachable(s: Seq<TableView>, from: Seq<char>, to: Seq<char>) -> bool {
    exists|p: Seq<ForeignKeyView>| #[trigger] is_join_path(s, from, to, p)
}

/// A chain of at most `n` foreign keys joins `from` to `to`.
pub open spec fn within(s: Seq<TableView>, from: Seq<char>, to: Seq<char>, n: nat) -> bool {
    exists|p: Seq<ForeignKeyView>| p.len() <= n && #[trigger] is_join_path(s, from, to, p)
}

/// `p` joins `from` to `to`, and no chain with fewer foreign keys does.
pub open spec fn shortest_join_path(
    s: Seq<TableView>,
    from: Seq<char>,
    to: Seq<char>,
    p: Seq<ForeignKeyView>,
) -> bool {
    &&& is_join_path(s, from, to, p)
    &&& forall|q: Seq<ForeignKeyView>| #[trigger] is_join_path(s, from, to, q) ==> p.len() <= q.len()
}

/// Every foreign key is stored with the table that declares it and
/// references a table of the schema, and no table name occurs twice.
pub open spec fn closed_references(s: Seq<TableView>) -> bool {
    &&& unique_names(s)
    &&& forall|i: int, k: int|
        0 <= i < s.len() && 0 <= k < s[i].foreign_keys.len() ==> (#[trigger] s[i].foreign_keys[k]).from_table
            == s[i].name && exists|j: int| 0 <= j < s.len() && s[j].name == s[i].foreign_keys[k].to_table
}

pub proof fn lemma_first_unique(s: Seq<TableView>, name: Seq<char>, i: int, j: int)
    requires
        is_first(s, name, i),
        is_first(s, name, j),
    ensures
        i == j,
{
    if i < j {
        assert(s[i].name != name);
    } else if j < i {
        assert(s[j].name != name);
    }
}

pub proof fn lemma_walk_extend(
    s: Seq<TableView>,
    from: Seq<char>,
    u: Seq<char>,
    fk: ForeignKeyView,
    v: Seq<char>,
    p: Seq<ForeignKeyView>,
    ns: Seq<Seq<char>>,
)
    requires
        is_walk(s, from, u, p, ns),
        has_edge(s, u, fk, v),
    ensures
        is_walk(s, from, v, p.push(fk), ns.push(v)),
{
    let p2 = p.push(fk);
    let ns2 = ns.push(v);
    assert forall|k: int| 0 <= k < p2.len() implies has_edge(s, ns2[k], #[trigger] p2[k], ns2[k + 1]) by {
        if k < p.len() {
            assert(p2[k] == p[k]);
            assert(has_edge(s, ns[k], p[k], ns[k + 1]));
        }
    }
}

pub proof fn lemma_join_path_extend(
    s: Seq<TableView>,
    from: Seq<char>,
    u: Seq<char>,
    fk: ForeignKeyView,
    v: Seq<char>,
    p: Seq<ForeignKeyView>,
)
    requires
        is_join_path(s, from, u, p),
        has_edge(s, u, fk, v),
    ensures
        is_join_path(s, from, v, p.push(fk)),
{
    let ns = choose|ns: Seq<Seq<char>>| is_walk(s, from, u, p, ns);
    lemma_walk_extend(s, from, u, fk, v, p, ns);
}

pub proof fn lemma_walk_prefix(
    s: Seq<TableView>,
    from: Seq<char>,
    to: Seq<char>,
    p: Seq<ForeignKeyView>,
    ns: Seq<Seq<char>>,
)
    requires
        is_walk(s, from, to, p, ns),
        p.len() > 0,
    ensures
        is_walk(s, from, ns[p.len() - 1], p.drop_last(), ns.drop_last()),
        has_edge(s, ns[p.len() - 1], p.last(), to),
{
    let m = p.len() - 1;
    assert(has_edge(s, ns[m], p[m], ns[m + 1]));
    assert forall|k: int| 0 <= k < p.drop_last().len() implies has_edge(
        s,
        ns.drop_last()[k],
        #[trigger] p.drop_last()[k],
        ns.drop_last()[k + 1],
    ) by {
        assert(has_edge(s, ns[k], p[k], ns[k + 1]));
    }
}

pub proof fn lemma_within_zero(s: Seq<TableView>, from: Seq<char>, x: Seq<char>)
    ensures
        within(s, from, x, 0) <==> x == from,
{
    if within(s, from, x, 0) {
        let p = choose|p: Seq<ForeignKeyView>| p.len() <= 0 && #[trigger] is_join_path(s, from, x, p);
        let ns = choose|ns: Seq<Seq<char>>| is_walk(s, from, x, p, ns);
        assert(ns[0] == ns.last());
    }
    if x == from {
        let p = Seq::<ForeignKeyView>::empty();
        assert(is_walk(s, from, x, p, seq![from]));
        assert(is_join_path(s, from, x, p));
    }
}

pub proof fn lemma_within_mono(s: Seq<TableView>, from: Seq<char>, x: Seq<char>, m: nat, n: nat)
    requires
        within(s, from, x, m),
        m <= n,
    ensures
        within(s, from, x, n),
{
    let p = choose|p: Seq<ForeignKeyView>| p.len() <= m && #[trigger] is_join_path(s, from, x, p);
    assert(p.len() <= n && is_join_path(s, from, x, p));
}

pub proof fn lemma_within_extend(
    s: Seq<TableView>,
    from: Seq<char>,
    u: Seq<char>,
    fk: ForeignKeyView,
    v: Seq<char>,
    d: nat,
)
    requires
        within(s, from, u, d),
        has_edge(s, u, fk, v),
    ensures
        within(s, from, v, d + 1),
{
    let p = choose|p: Seq<ForeignKeyView>| p.len() <= d && #[trigger] is_join_path(s, from, u, p);
    lemma_join_path_extend(s, from, u, fk, v, p);
    assert(p.push(fk).len() <= d + 1);
}

/// A table at distance exactly `d + 1` from `from` is one step away from a
/// table at distance exactly `d`.
pub proof fn lemma_predecessor(s: Seq<TableView>, from: Seq<char>, v: Seq<char>, d: nat) -> (r: (
    Seq<char>,
    ForeignKeyView,
))
    requires
        within(s, from, v, d + 1),
        !within(s, from, v, d),
    ensures
        within(s, from, r.0, d),
        d > 0 ==> !within(s, from, r.0, (d - 1) as nat),
        has_edge(s, r.0, r.1, v),
{
    let p = choose|p: Seq<ForeignKeyView>| p.len() <= d + 1 && #[trigger] is_join_path(s, from, v, p);
    assert(p.len() == d + 1) by {
        if p.len() <= d {
            assert(within(s, from, v, d));
        }
    }
    let ns = choose|ns: Seq<Seq<char>>| is_walk(s, from, v, p, ns);
    lemma_walk_prefix(s, from, v, p, ns);
    let u = ns[p.len() - 1];
    let fk = p.last();
    assert(is_join_path(s, from, u, p.drop_last()));
    assert(within(s, from, u, d));
    if d > 0 && within(s, from, u, (d - 1) as nat) {
        lemma_within_extend(s, from, u, fk, v, (d - 1) as nat);
    }
    (u, fk)
}

/// Where no table first reached within `d + 1` steps needs more than `d`,
/// nothing reachable needs more than `d + 1`.
pub proof fn lemma_closed(s: Seq<TableView>, from: Seq<char>, to: Seq<char>, p: Seq<ForeignKeyView>, d: nat)
    requires
        is_join_path(s, from, to, p),
        forall|u: Seq<char>, i: int|
            #[trigger] is_first(s, u, i) && within(s, from, u, d + 1) ==> within(s, from, u, d),
    ensures
        within(s, from, to, d + 1),
    decreases p.len(),
{
    let ns = choose|ns: Seq<Seq<char>>| is_walk(s, from, to, p, ns);
    if p.len() == 0 {
        lemma_within_zero(s, from, to);
        lemma_within_mono(s, from, to, 0, d + 1);
    } else {
        lemma_walk_prefix(s, from, to, p, ns);
        let u = ns[p.len() - 1];
        assert(is_join_path(s, from, u, p.drop_last()));
        lemma_closed(s, from, u, p.drop_last(), d);
        let i = choose|i: int| #[trigger] is_first(s, u, i) && ((s[i].foreign_keys.contains(p.last()) && to
            == p.last().to_table) || (declared(s, p.last()) && p.last().to_table == u && to
            == p.last().from_table));
        assert(within(s, from, u, d));
        lemma_within_extend(s, from, u, p.last(), to, d);
    }
}

/// A join path that starts at a name that is no table is empty.
pub proof fn lemma_no_exit(s: Seq<TableView>, from: Seq<char>, to: Seq<char>, p: Seq<ForeignKeyView>)
    requires
        is_join_path(s, from, to, p),
        !has_table(s, from),
    ensures
        to == from,
        p.len() == 0,
{
    let ns = choose|ns: Seq<Seq<char>>| is_walk(s, from, to, p, ns);
    if p.len() > 0 {
        assert(has_edge(s, ns[0], p[0], ns[1]));
        let i = choose|i: int| #[trigger] is_first(s, from, i) && ((s[i].foreign_keys.contains(p[0]) && ns[1]
            == p[0].to_table) || (declared(s, p[0]) && p[0].to_table == from && ns[1] == p[0].from_table));
        assert(has_table(s, from));
    }
}

proof fn lemma_unique_first(s: Seq<TableView>, j: int)
    requires
        unique_names(s),
        0 <= j < s.len(),
    ensures
        is_first(s, s[j].name, j),
{
    assert forall|k: int| 0 <= k < j implies #[trigger] s[k].name != s[j].name by {
        assert(s[k].name != s[j].name);
    }
}

proof fn lemma_edge_reverse(s: Seq<TableView>, u: Seq<char>, fk: ForeignKeyView, v: Seq<char>)
    requires
        closed_references(s),
        has_edge(s, u, fk, v),
    ensures
        has_edge(s, v, fk, u),
{
    let i = choose|i: int|
        #[trigger] is_first(s, u, i) && ((s[i].foreign_keys.contains(fk) && v == fk.to_table) || (declared(s, fk)
            && fk.to_table == u && v == fk.from_table));
    if s[i].foreign_keys.contains(fk) && v == fk.to_table {
        let k = choose|k: int| 0 <= k < s[i].foreign_keys.len() && s[i].foreign_keys[k] == fk;
        assert(s[i].foreign_keys[k].from_table == s[i].name);
        let j = choose|j: int| 0 <= j < s.len() && s[j].name == s[i].foreign_keys[k].to_table;
        lemma_unique_first(s, j);
        assert(declared(s, fk));
        assert(is_first(s, v, j));
    } else {
        let (t, k) = choose|t: int, k: int|
            0 <= t < s.len() && 0 <= k < s[t].foreign_keys.len() && #[trigger] s[t].foreign_keys[k] == fk;
        assert(s[t].foreign_keys[k].from_table == s[t].name);
        lemma_unique_first(s, t);
        assert(s[t].foreign_keys.contains(fk));
        assert(is_first(s, v, t));
    }
}

proof fn lemma_walk_prepend(
    s: Seq<TableView>,
    a: Seq<char>,
    u: Seq<char>,
    b: Seq<char>,
    fk: ForeignKeyView,
    q: Seq<ForeignKeyView>,
    qs: Seq<Seq<char>>,
)
    requires
        has_edge(s, a, fk, u),
        is_walk(s, u, b, q, qs),
    ensures
        is_walk(s, a, b, seq![fk] + q, seq![a] + qs),
{
    let p = seq![fk] + q;
    let ns = seq![a] + qs;
    assert forall|k: int| 0 <= k < p.len() implies has_edge(s, ns[k], #[trigger] p[k], ns[k + 1]) by {
        if k > 0 {
            assert(p[k] == q[k - 1]);
            assert(ns[k] == qs[k - 1]);
            assert(ns[k + 1] == qs[k]);
            assert(has_edge(s, qs[k - 1], q[k - 1], qs[k]));
        }
    }
}

proof fn lemma_join_path_reverse(s: Seq<TableView>, from: Seq<char>, to: Seq<char>, p: Seq<ForeignKeyView>) -> (r: Seq<
    ForeignKeyView,
>)
    requires
        closed_references(s),
        is_join_path(s, from, to, p),
    ensures
        is_join_path(s, to, from, r),
        r.len() == p.len(),
    decreases p.len(),
{
    let ns = choose|ns: Seq<Seq<char>>| is_walk(s, from, to, p, ns);
    if p.len() == 0 {
        assert(is_walk(s, to, from, p, seq![to]));
        p
    } else {
        lemma_walk_prefix(s, from, to, p, ns);
        let u = ns[p.len() - 1];
        assert(is_join_path(s, from, u, p.drop_last()));
        let rest = lemma_join_path_reverse(s, from, u, p.drop_last());
        let qs = choose|qs: Seq<Seq<char>>| is_walk(s, u, from, rest, qs);
        lemma_edge_reverse(s, u, p.last(), to);
        lemma_walk_prepend(s, to, u, from, p.last(), rest, qs);
        assert(is_join_path(s, to, from, seq![p.last()] + rest));
        seq![p.last()] + rest
    }
}

/// Where every foreign key is stored with its declaring table and
/// references a table of the schema, a join path from `a` to `b` exists
/// exactly when one from `b` to `a` does, and the shortest ones are equally
/// long.
pub proof fn lemma_reachable_symmetric(s: Seq<TableView>, a: Seq<char>, b: Seq<char>)
    requires
        closed_references(s),
    ensures
        reachable(s, a, b) <==> reachable(s, b, a),
        forall|p: Seq<ForeignKeyView>, q: Seq<ForeignKeyView>|
            #[trigger] shortest_join_path(s, a, b, p) && #[trigger] shortest_join_path(s, b, a, q) ==> p.len()
                == q.len(),
{
    if reachable(s, a, b) {
        let p = choose|p: Seq<ForeignKeyView>| #[trigger] is_join_path(s, a, b, p);
        let r = lemma_join_path_reverse(s, a, b, p);
        assert(is_join_path(s, b, a, r));
    }
    if reachable(s, b, a) {
        let p = choose|p: Seq<ForeignKeyView>| #[trigger] is_join_path(s, b, a, p);
        let r = lemma_join_path_reverse(s, b, a, p);
        assert(is_join_path(s, a, b, r));
    }
    assert forall|p: Seq<ForeignKeyView>, q: Seq<ForeignKeyView>|
        #[trigger] shortest_join_path(s, a, b, p) && #[trigger] shortest_join_path(s, b, a, q) implies p.len()
            == q.len() by {
        let rp = lemma_join_path_reverse(s, a, b, p);
        let rq = lemma_join_path_reverse(s, b, a, q);
        assert(is_join_path(s, b, a, rp));
        assert(is_join_path(s, a, b, rq));
    }
}

/// Where every foreign key is stored with its declaring table and
/// references a table of the schema, two tables that no chain of foreign
/// keys joins one way are not joined the other way either.
pub proof fn lemma_disconnected(s: Seq<TableView>, a: Seq<char>, b: Seq<char>)
    requires
        closed_references(s),
        !reachable(s, a, b),
    ensures
        !reachable(s, b, a),
{
    lemma_reachable_symmetric(s, a, b);
}

} // verus!
