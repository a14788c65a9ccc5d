use std::collections::BTreeMap;
use yaiko::search::{FilterOperator, QueryBuilder, QueryError};

fn fields(names: &[&str]) -> Vec<String> {
    names.iter().map(|n| n.to_string()).collect()
}

fn entries(params: BTreeMap<String, String>) -> Vec<(String, String)> {
    params.into_iter().collect()
}

#[test]
fn parses_filters_sorts_limits_and_cursor() {
    let params = BTreeMap::from([
        (String::from("name[contains]"), String::from("Ada")),
        (String::from("sort"), String::from("-created_at,name")),
        (String::from("limit"), String::from("25")),
        (String::from("cursor"), String::from("opaque")),
    ]);
    let query = QueryBuilder::new(fields(&["name", "created_at"])).parse(&entries(params)).unwrap();
    assert_eq!(query.filters[0].operator, FilterOperator::Contains);
    assert!(query.sort[0].descending);
    assert_eq!(query.limit, Some(25));
    assert_eq!(query.cursor.as_deref(), Some("opaque"));
}

#[test]
fn rejects_unallowlisted_fields_and_malformed_parameters() {
    let params = BTreeMap::from([(String::from("sort"), String::from("password"))]);
    assert_eq!(
        QueryBuilder::new(fields(&["name"])).parse(&entries(params)),
        Err(QueryError::InvalidSortField)
    );
    let params = BTreeMap::from([(String::from("name[unknown]"), String::from("x"))]);
    assert_eq!(
        QueryBuilder::new(fields(&["name"])).parse(&entries(params)),
        Err(QueryError::InvalidParameter)
    );
}

#[test]
fn accepts_only_safe_field_identifiers() {
    let params = BTreeMap::from([(String::from("name[eq]"), String::from("x"))]);
    assert!(QueryBuilder::new(fields(&["name"])).parse(&entries(params)).is_ok());
    let params = BTreeMap::from([(String::from("name[eq]"), String::from("x"))]);
    assert!(QueryBuilder::new(fields(&["name;drop"])).parse(&entries(params)).is_err());
}

#[test]
fn sort_skips_blank_pieces_and_strips_dashes() {
    let params = BTreeMap::from([(String::from("sort"), String::from(" --name , ,age"))]);
    let query = QueryBuilder::new(fields(&["name", "age"])).parse(&entries(params)).unwrap();
    assert_eq!(query.sort.len(), 2);
    assert_eq!(query.sort[0].field, "name");
    assert!(query.sort[0].descending);
    assert_eq!(query.sort[1].field, "age");
    assert!(!query.sort[1].descending);
}

#[test]
fn filters_keep_field_operator_and_value() {
    let params = BTreeMap::from([
        (String::from("age[gte]"), String::from("18")),
        (String::from("name[prefix]"), String::from("Ad")),
    ]);
    let query = QueryBuilder::new(fields(&["name", "age"])).parse(&entries(params)).unwrap();
    assert_eq!(query.filters.len(), 2);
    assert_eq!(query.filters[0].field, "age");
    assert_eq!(query.filters[0].operator, FilterOperator::Gte);
    assert_eq!(query.filters[0].value, "18");
    assert_eq!(query.filters[1].operator, FilterOperator::Prefix);
    assert_eq!(query.limit, None);
    assert_eq!(query.cursor, None);
}

#[test]
fn limit_must_be_a_number() {
    let params = BTreeMap::from([(String::from("limit"), String::from("ten"))]);
    assert_eq!(
        QueryBuilder::new(fields(&["name"])).parse(&entries(params)),
        Err(QueryError::InvalidLimit)
    );
    let params = BTreeMap::from([(String::from("limit"), String::from("+7"))]);
    assert_eq!(QueryBuilder::new(fields(&["name"])).parse(&entries(params)).unwrap().limit, Some(7));
}

#[test]
fn malformed_filter_keys_are_invalid_parameters() {
    for key in ["name", "name[eq", "name[eq]x", "page"] {
        let params = BTreeMap::from([(String::from(key), String::from("x"))]);
        assert_eq!(
            QueryBuilder::new(fields(&["name"])).parse(&entries(params)),
            Err(QueryError::InvalidParameter),
            "{key}"
        );
    }
}

#[test]
fn no_parameters_give_an_empty_query() {
    let query = QueryBuilder::new(fields(&["name"])).parse(&Vec::new()).unwrap();
    assert!(query.filters.is_empty());
    assert!(query.sort.is_empty());
}
