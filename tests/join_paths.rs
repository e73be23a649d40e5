use dbnav::{parse_condition, render_sql, ForeignKey, Schema, NO_JOIN_PATH};

fn fk(from_table: &str, from_column: &str, to_table: &str, to_column: &str) -> ForeignKey {
    ForeignKey {
        from_table: from_table.to_string(),
        from_column: from_column.to_string(),
        to_table: to_table.to_string(),
        to_column: to_column.to_string(),
    }
}

fn strings(v: &[&str]) -> Vec<String> {
    v.iter().map(|s| s.to_string()).collect()
}

fn schema_of(
    names: &[&str],
    columns: &[(&str, &[&str])],
    keys: Vec<(&str, Vec<ForeignKey>)>,
) -> Schema {
    let names = strings(names);
    let columns: Vec<(String, Vec<String>)> =
        columns.iter().map(|(t, c)| (t.to_string(), strings(c))).collect();
    let keys: Vec<(String, Vec<ForeignKey>)> =
        keys.into_iter().map(|(t, k)| (t.to_string(), k)).collect();
    Schema::build(&names, &columns, &keys)
}

fn shop() -> Schema {
    schema_of(
        &["customers", "order_items", "orders"],
        &[
            ("customers", &["id"]),
            ("orders", &["id", "customer_id"]),
            ("order_items", &["id", "order_id"]),
        ],
        vec![
            ("orders", vec![fk("orders", "customer_id", "customers", "id")]),
            ("order_items", vec![fk("order_items", "order_id", "orders", "id")]),
        ],
    )
}

fn count_joins(sql: &str) -> usize {
    sql.matches(" JOIN ").count()
}

#[test]
fn scenario_join_path() {
    let s = shop();
    let p = s.find_join_path("order_items", "customers").unwrap();
    assert_eq!(
        p,
        vec![
            fk("order_items", "order_id", "orders", "id"),
            fk("orders", "customer_id", "customers", "id"),
        ]
    );
}

#[test]
fn scenario_sql() {
    let s = shop();
    let sql = s.generate_sql("customers", "id", "order_items", "id", "42").unwrap();
    assert_eq!(
        sql,
        "SELECT customers.id FROM order_items JOIN orders ON order_items.order_id = orders.id JOIN customers ON orders.customer_id = customers.id WHERE order_items.id = '42'"
    );
}

#[test]
fn unknown_table_has_no_path() {
    let s = shop();
    assert_eq!(s.find_join_path("ghost_table", "customers"), Err(NO_JOIN_PATH));
    assert_eq!(s.find_join_path("customers", "ghost_table"), Err("No join path found"));
}

#[test]
fn self_path_is_empty() {
    let s = shop();
    assert_eq!(s.find_join_path("orders", "orders"), Ok(vec![]));
    assert_eq!(s.find_join_path("ghost_table", "ghost_table"), Ok(vec![]));
}

#[test]
fn reverse_direction_is_reachable() {
    let s = shop();
    let forward = s.find_join_path("order_items", "customers").unwrap();
    let backward = s.find_join_path("customers", "order_items").unwrap();
    assert_eq!(forward.len(), backward.len());
    assert_eq!(
        backward,
        vec![
            fk("orders", "customer_id", "customers", "id"),
            fk("order_items", "order_id", "orders", "id"),
        ]
    );
}

#[test]
fn disconnected_tables_fail_both_ways() {
    let s = schema_of(
        &["customers", "orders", "audit_log"],
        &[("audit_log", &["id", "note"])],
        vec![("orders", vec![fk("orders", "customer_id", "customers", "id")])],
    );
    assert_eq!(s.find_join_path("audit_log", "customers"), Err(NO_JOIN_PATH));
    assert_eq!(s.find_join_path("customers", "audit_log"), Err(NO_JOIN_PATH));
    assert_eq!(
        s.generate_sql("audit_log", "id", "customers", "id", "1"),
        Err(NO_JOIN_PATH)
    );
}

#[test]
fn shortest_route_is_taken() {
    let s = schema_of(
        &["a", "b", "c", "d"],
        &[],
        vec![
            ("a", vec![fk("a", "b_id", "b", "id"), fk("a", "d_id", "d", "id")]),
            ("b", vec![fk("b", "c_id", "c", "id")]),
            ("c", vec![fk("c", "d_id", "d", "id")]),
        ],
    );
    let p = s.find_join_path("a", "d").unwrap();
    assert_eq!(p, vec![fk("a", "d_id", "d", "id")]);
    let p = s.find_join_path("b", "d").unwrap();
    assert_eq!(p.len(), 2);
}

#[test]
fn ties_prefer_own_foreign_keys() {
    let s = schema_of(
        &["a", "b", "c", "d"],
        &[],
        vec![
            ("a", vec![fk("a", "b_id", "b", "id")]),
            ("b", vec![fk("b", "d_id", "d", "id")]),
            ("c", vec![fk("c", "a_id", "a", "id"), fk("c", "d_id", "d", "id")]),
        ],
    );
    let p = s.find_join_path("a", "d").unwrap();
    assert_eq!(p, vec![fk("a", "b_id", "b", "id"), fk("b", "d_id", "d", "id")]);
}

#[test]
fn dangling_reference_is_a_dead_end() {
    let s = schema_of(
        &["orders"],
        &[],
        vec![("orders", vec![fk("orders", "archive_id", "archived", "id")])],
    );
    assert_eq!(
        s.find_join_path("orders", "archived"),
        Ok(vec![fk("orders", "archive_id", "archived", "id")])
    );
    assert_eq!(s.find_join_path("archived", "orders"), Err(NO_JOIN_PATH));
}

#[test]
fn sql_joins_match_path_length() {
    let s = shop();
    for (target, condition) in [
        ("customers", "order_items"),
        ("order_items", "customers"),
        ("orders", "customers"),
        ("orders", "orders"),
    ] {
        let path = s.find_join_path(condition, target).unwrap();
        let sql = s.generate_sql(target, "id", condition, "id", "7").unwrap();
        assert_eq!(count_joins(&sql), path.len());
        assert!(sql.starts_with(&format!("SELECT {}.id FROM {}", target, condition)));
        assert!(sql.ends_with(&format!(" WHERE {}.id = '7'", condition)));
    }
}

#[test]
fn generation_is_deterministic() {
    let s = shop();
    let first = s.generate_sql("customers", "id", "order_items", "id", "42");
    let second = s.generate_sql("customers", "id", "order_items", "id", "42");
    assert_eq!(first, second);
    assert_eq!(
        s.find_join_path("customers", "order_items"),
        s.find_join_path("customers", "order_items")
    );
}

#[test]
fn join_walks_back_along_reversed_keys() {
    let s = shop();
    let sql = s.generate_sql("order_items", "id", "customers", "id", "5").unwrap();
    assert_eq!(
        sql,
        "SELECT order_items.id FROM customers JOIN orders ON orders.customer_id = customers.id JOIN order_items ON order_items.order_id = orders.id WHERE customers.id = '5'"
    );
}

#[test]
fn render_without_joins() {
    let sql = render_sql("t", "c", "t", "x", "v", &vec![]);
    assert_eq!(sql, "SELECT t.c FROM t WHERE t.x = 'v'");
}

#[test]
fn value_is_embedded_verbatim() {
    let sql = render_sql("people", "name", "people", "last", "O'Brien", &vec![]);
    assert_eq!(sql, "SELECT people.name FROM people WHERE people.last = 'O'Brien'");
}

#[test]
fn build_defaults_and_duplicates() {
    let s = schema_of(
        &["b", "a", "b"],
        &[("a", &["x", "y"]), ("a", &["z"])],
        vec![("b", vec![fk("b", "a_id", "a", "x")])],
    );
    assert_eq!(s.table_names(), strings(&["b", "a"]));
    let a = s.table("a").unwrap();
    assert_eq!(a.columns, strings(&["x", "y"]));
    assert!(a.foreign_keys.is_empty());
    let b = s.table("b").unwrap();
    assert!(b.columns.is_empty());
    assert_eq!(s.foreign_keys_of("b"), vec![fk("b", "a_id", "a", "x")]);
    assert!(s.foreign_keys_of("nothing").is_empty());
    assert!(s.table("nothing").is_none());
}

#[test]
fn empty_schema() {
    let s = schema_of(&[], &[], vec![]);
    assert!(s.table_names().is_empty());
    assert_eq!(s.find_join_path("a", "b"), Err(NO_JOIN_PATH));
    assert_eq!(s.find_join_path("a", "a"), Ok(vec![]));
}

#[test]
fn condition_splits_at_first_dot() {
    assert_eq!(
        parse_condition("orders.id"),
        Some(("orders".to_string(), "id".to_string()))
    );
    assert_eq!(
        parse_condition("a.b.c"),
        Some(("a".to_string(), "b.c".to_string()))
    );
    assert_eq!(parse_condition(".x"), Some((String::new(), "x".to_string())));
    assert_eq!(parse_condition("nodot"), None);
}
