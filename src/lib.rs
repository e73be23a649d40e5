//! Schema graph of a relational database, shortest foreign-key join paths
//! between its tables, and the SQL query that follows such a path.
mod condition;
mod graph;
mod join_path;
mod schema;
mod search;
mod sql;

pub use condition::{first_dot, parse_condition};
pub use graph::{
    closed_references, declared, has_edge, has_table, is_first, is_join_path, is_walk, lemma_disconnected,
    lemma_reachable_symmetric, reachable, shortest_join_path, within,
};
pub use join_path::NO_JOIN_PATH;
pub use schema::{
    built_table, distinct_names, entry_of, first_entry, keys_view, strings_view, unique_names, ForeignKey,
    ForeignKeyView, Schema, Table, TableView,
};
pub use search::{
    entries_view, fresh_state, join_path_of, position, search, state_of, visit, visit_level, visit_own, visit_referencing,
    visit_referencing_in, visit_table, SearchState,
};
pub use sql::{
    generated_sql, join_clause, join_clauses, lemma_sql_deterministic, lemma_sql_shape, next_table, render_sql,
    select_from, select_sql, table_after, where_clause,
};
