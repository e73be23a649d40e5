use vstd::prelude::*;
use vstd::string::StringExecFns;

use crate::graph::{reachable, shortest_join_path};
use crate::join_path::NO_JOIN_PATH;
use crate::schema::{keys_view, ForeignKey, ForeignKeyView, Schema, TableView};
use crate::search::join_path_of;

verus! {

/// The table that a join along `fk` reaches from `last`: whichever end of
/// `fk` is not `last`.
pub open spec fn next_table(last: Seq<char>, fk: ForeignKeyView) -> Seq<char> {
    if fk.from_table == last {
        fk.to_table
    } else {
        fk.from_table
    }
}

/// The table that the joins along `p` reach from `start`.
pub open spec fn table_after(start: Seq<char>, p: Seq<ForeignKeyView>) -> Seq<char>
    decreases p.len(),
{
    if p.len() == 0 {
        start
    } else {
        next_table(table_after(start, p.drop_last()), p.last())
    }
}

/// `JOIN <next> ON <from_table>.<from_column> = <to_table>.<to_column>`,
/// with a leading space.
pub open spec fn join_clause(last: Seq<char>, fk: ForeignKeyView) -> Seq<char> {
    " JOIN "@ + next_table(last, fk) + " ON "@ + fk.from_table + "."@ + fk.from_column + " = "@
        + fk.to_table + "."@ + fk.to_column
}

/// The join clauses along `p` from `start`, one per foreign key.
pub open spec fn join_clauses(start: Seq<char>, p: Seq<ForeignKeyView>) -> Seq<Seq<char>>
    decreases p.len(),
{
    if p.len() == 0 {
        Seq::empty()
    } else {
        join_clauses(start, p.drop_last()).push(join_clause(table_after(start, p.drop_last()), p.last()))
    }
}

/// `SELECT <target_table>.<target_column> FROM <condition_table>`.
pub open spec fn select_from(target_table: Seq<char>, target_column: Seq<char>, condition_table: Seq<char>) -> Seq<char> {
    "SELECT "@ + target_table + "."@ + target_column + " FROM "@ + condition_table
}

/// `WHERE <condition_table>.<condition_column> = '<condition_value>'`, with
/// a leading space and the value as it is.
pub open spec fn where_clause(condition_table: Seq<char>, condition_column: Seq<char>, condition_value: Seq<char>) -> Seq<char> {
    " WHERE "@ + condition_table + "."@ + condition_column + " = '"@ + condition_value + "'"@
}

/// The query that selects `target_table.target_column` over the joins
/// along `p` from `condition_table`, filtered on `condition_column`.
pub open spec fn select_sql(
    target_table: Seq<char>,
    target_column: Seq<char>,
    condition_table: Seq<char>,
    condition_column: Seq<char>,
    condition_value: Seq<char>,
    p: Seq<ForeignKeyView>,
) -> Seq<char> {
    select_from(target_table, target_column, condition_table) + join_clauses(condition_table, p).flatten_alt()
        + where_clause(condition_table, condition_column, condition_value)
}

/// The query that `generate_sql` writes over schema `s`: the one that
/// follows the join path that the search finds, if any.
pub open spec fn generated_sql(
    s: Seq<TableView>,
    target_table: Seq<char>,
    target_column: Seq<char>,
    condition_table: Seq<char>,
    condition_column: Seq<char>,
    condition_value: Seq<char>,
) -> Option<Seq<char>> {
    match join_path_of(s, condition_table, target_table) {
        Some(p) => Some(select_sql(target_table, target_column, condition_table, condition_column, condition_value, p)),
        None => None,
    }
}

/// Generating a query twice over schemas of equal content with the same
/// arguments gives the same text.
pub proof fn lemma_sql_deterministic(
    s1: Seq<TableView>,
    s2: Seq<TableView>,
    target_table: Seq<char>,
    target_column: Seq<char>,
    condition_table: Seq<char>,
    condition_column: Seq<char>,
    condition_value: Seq<char>,
    q1: Seq<char>,
    q2: Seq<char>,
)
    requires
        s1 == s2,
        generated_sql(s1, target_table, target_column, condition_table, condition_column, condition_value) == Some(q1),
        generated_sql(s2, target_table, target_column, condition_table, condition_column, condition_value) == Some(q2),
    ensures
        q1 == q2,
{
}

/// The query holds one join clause per foreign key of `p`, in order; the
/// clause for the `i`-th joins the table that is not the one reached by the
/// first `i`. It selects from `target_table` and starts from `condition_table`.
pub proof fn lemma_sql_shape(
    target_table: Seq<char>,
    target_column: Seq<char>,
    condition_table: Seq<char>,
    condition_column: Seq<char>,
    condition_value: Seq<char>,
    p: Seq<ForeignKeyView>,
)
    ensures
        join_clauses(condition_table, p).len() == p.len(),
        forall|i: int|
            0 <= i < p.len() ==> #[trigger] join_clauses(condition_table, p)[i] == join_clause(
                table_after(condition_table, p.subrange(0, i)),
                p[i],
            ),
        select_sql(target_table, target_column, condition_table, condition_column, condition_value, p)
            == "SELECT "@ + target_table + "."@ + target_column + " FROM "@ + condition_table + join_clauses(
            condition_table,
            p,
        ).flatten_alt() + where_clause(condition_table, condition_column, condition_value),
    decreases p.len(),
{
    if p.len() > 0 {
        let init = p.drop_last();
        lemma_sql_shape(target_table, target_column, condition_table, condition_column, condition_value, init);
        assert forall|i: int|
            0 <= i < p.len() implies #[trigger] join_clauses(condition_table, p)[i] == join_clause(
                table_after(condition_table, p.subrange(0, i)),
                p[i],
            ) by {
            if i < p.len() - 1 {
                assert(init.subrange(0, i) =~= p.subrange(0, i));
                assert(join_clauses(condition_table, init)[i] == join_clause(
                    table_after(condition_table, init.subrange(0, i)),
                    init[i],
                ));
            } else {
                assert(p.subrange(0, i) =~= init);
            }
        }
    }
}

/// Writes the query that selects `target_table.target_column`, starting
/// from `condition_table` and joining along `path`, filtered on
/// `condition_column` equal to `condition_value`. The value is placed
/// between quotes as it is, without escaping.
pub fn render_sql(
    target_table: &str,
    target_column: &str,
    condition_table: &str,
    condition_column: &str,
    condition_value: &str,
    path: &Vec<ForeignKey>,
) -> (r: String)
    ensures
        r@ == select_sql(
            target_table@,
            target_column@,
            condition_table@,
            condition_column@,
            condition_value@,
            keys_view(path@),
        ),
{
    let ghost p = keys_view(path@);
    let ghost head = select_from(target_table@, target_column@, condition_table@);
    let mut query = String::new();
    query.append("SELECT ");
    query.append(target_table);
    query.append(".");
    query.append(target_column);
    query.append(" FROM ");
    query.append(condition_table);
    assert(query@ =~= head);
    let mut last = condition_table.to_owned();
    let mut k: usize = 0;
    while k < path.len()
        invariant
            p == keys_view(path@),
            k <= path.len(),
            query@ == head + join_clauses(condition_table@, p.subrange(0, k as int)).flatten_alt(),
            last@ == table_after(condition_table@, p.subrange(0, k as int)),
        decreases path.len() - k,
    {
        let fk = &path[k];
        let next = if fk.from_table == last {
            fk.to_table.clone()
        } else {
            fk.from_table.clone()
        };
        let ghost before = query@;
        query.append(" JOIN ");
        query.append(next.as_str());
        query.append(" ON ");
        query.append(fk.from_table.as_str());
        query.append(".");
        query.append(fk.from_column.as_str());
        query.append(" = ");
        query.append(fk.to_table.as_str());
        query.append(".");
        query.append(fk.to_column.as_str());
        proof {
            let done = p.subrange(0, k as int);
            let more = p.subrange(0, k as int + 1);
            assert(more.drop_last() =~= done);
            assert(more.last() == fk@);
            assert(next@ == next_table(last@, fk@));
            let c = join_clause(last@, fk@);
            assert(join_clauses(condition_table@, more) == join_clauses(condition_table@, done).push(c));
            assert(join_clauses(condition_table@, done).push(c).drop_last() =~= join_clauses(condition_table@, done));
            assert(join_clauses(condition_table@, more).flatten_alt() == join_clauses(condition_table@, done).flatten_alt() + c);
            assert(query@ =~= before + c);
            assert(query@ =~= head + join_clauses(condition_table@, more).flatten_alt());
        }
        last = next;
        k = k + 1;
    }
    let ghost joined = query@;
    query.append(" WHERE ");
    query.append(condition_table);
    query.append(".");
    query.append(condition_column);
    query.append(" = '");
    query.append(condition_value);
    query.append("'");
    proof {
        assert(p.subrange(0, path@.len() as int) =~= p);
        assert(query@ =~= joined + where_clause(condition_table@, condition_column@, condition_value@));
    }
    query
}

impl Schema {
    /// The query that selects `target_table.target_column` from the rows of
    /// `condition_table` whose `condition_column` equals `condition_value`,
    /// joining along a shortest join path from `condition_table` to
    /// `target_table`. Fails when no join path connects them.
    pub fn generate_sql(
        &self,
        target_table: &str,
        target_column: &str,
        condition_table: &str,
        condition_column: &str,
        condition_value: &str,
    ) -> (r: Result<String, &'static str>)
        ensures
            r is Ok <==> reachable(self@, condition_table@, target_table@),
            match r {
                Ok(q) => Some(q@) == generated_sql(
                    self@,
                    target_table@,
                    target_column@,
                    condition_table@,
                    condition_column@,
                    condition_value@,
                ),
                Err(_) => generated_sql(
                    self@,
                    target_table@,
                    target_column@,
                    condition_table@,
                    condition_column@,
                    condition_value@,
                ) is None,
            },
            match r {
                Ok(q) => exists|p: Seq<ForeignKeyView>|
                    #[trigger] shortest_join_path(self@, condition_table@, target_table@, p) && q@ == select_sql(
                        target_table@,
                        target_column@,
                        condition_table@,
                        condition_column@,
                        condition_value@,
                        p,
                    ),
                Err(e) => e == NO_JOIN_PATH,
            },
    {
        match self.find_join_path(condition_table, target_table) {
            Ok(path) => {
                let q = render_sql(target_table, target_column, condition_table, condition_column, condition_value, &path);
                assert(shortest_join_path(self@, condition_table@, target_table@, keys_view(path@)));
                Ok(q)
            },
            Err(e) => Err(e),
        }
    }
}

} // verus!
