//! The expression inspector, plan schemas, and the peripheral value types.

use std::sync::Arc;

use udf_split::concat::ConcatNode;
use udf_split::expr::{Expr, LIST_MAP_ID};
use udf_split::plan::Plan;
use udf_split::video::{VideoError, VideoSource};

fn col(n: &str) -> Expr {
    Expr::Column(n.to_string())
}

fn alias(e: Expr, n: &str) -> Expr {
    Expr::Alias(Box::new(e), n.to_string())
}

fn add(a: Expr, b: Expr) -> Expr {
    Expr::Other(1, vec![a, b])
}

fn foo(inputs: Vec<Expr>) -> Expr {
    Expr::Udf("foo".to_string(), inputs)
}

fn list_map(inputs: Vec<Expr>) -> Expr {
    Expr::ScalarFn(LIST_MAP_ID, inputs)
}

#[test]
fn is_udf_sees_only_the_root() {
    assert!(foo(vec![col("a")]).is_udf());
    // Aliases are not transparent for the root check.
    assert!(!alias(foo(vec![col("a")]), "b").is_udf());
    assert!(!col("a").is_udf());
}

#[test]
fn alias_chain_termination_at_udf() {
    assert!(foo(vec![col("a")]).alias_chain_is_udf());
    assert!(alias(foo(vec![col("a")]), "b").alias_chain_is_udf());
    assert!(alias(alias(foo(vec![col("a")]), "b"), "c").alias_chain_is_udf());
    assert!(!alias(add(col("a"), foo(vec![col("a")])), "b").alias_chain_is_udf());
    assert!(!col("a").alias_chain_is_udf());
}

#[test]
fn requires_computation_only_for_non_leaves() {
    assert!(!col("a").requires_computation());
    assert!(!Expr::Literal(3).requires_computation());
    assert!(alias(col("a"), "b").requires_computation());
    assert!(add(col("a"), col("b")).requires_computation());
    assert!(foo(vec![col("a")]).requires_computation());
}

#[test]
fn derived_names() {
    assert_eq!(col("a").name(), "a");
    assert_eq!(alias(add(col("a"), col("b")), "s").name(), "s");
    assert_eq!(Expr::Literal(7).name(), "literal");
    // A function takes the name of its first argument.
    assert_eq!(foo(vec![col("b"), col("a")]).name(), "b");
    assert_eq!(add(col("x"), col("y")).name(), "x");
}

#[test]
fn udf_search_skips_list_map_bodies() {
    let hidden = alias(list_map(vec![col("a"), foo(vec![col("a")])]), "m");
    assert!(hidden.has_udf());
    assert!(!hidden.has_udf_skip_lm());
    let open_udf = add(col("a"), foo(vec![col("a")]));
    assert!(open_udf.has_udf());
    assert!(open_udf.has_udf_skip_lm());
    // A UDF standing after a list_map in the same expression is still found:
    // only the list_map subtree is skipped.
    let after = add(list_map(vec![col("a")]), foo(vec![col("a")]));
    assert!(after.has_udf_skip_lm());
}

#[test]
fn required_columns_in_first_visit_order() {
    let e = add(add(col("b"), col("a")), add(col("b"), Expr::Literal(1)));
    assert_eq!(
        e.required_columns(),
        vec!["b".to_string(), "a".to_string(), "b".to_string()]
    );
    // Columns below a list_map still count as required.
    let lm = alias(list_map(vec![col("c"), col("d")]), "m");
    assert_eq!(lm.required_columns(), vec!["c".to_string(), "d".to_string()]);
}

#[test]
fn schemas_of_plan_nodes() {
    let src = Plan::Source(vec!["a".to_string(), "b".to_string()]);
    assert_eq!(src.schema(), vec!["a".to_string(), "b".to_string()]);
    let proj = Plan::new_projection(src.clone(), vec![col("b"), alias(col("a"), "x")]).unwrap();
    assert_eq!(proj.schema(), vec!["b".to_string(), "x".to_string()]);
    // A single-UDF projection produces its passthroughs, then the UDF column.
    let up = Plan::new_udf_project(
        src,
        alias(foo(vec![col("a")]), "u"),
        vec![col("a"), col("b")],
    )
    .unwrap();
    assert_eq!(
        up.schema(),
        vec!["a".to_string(), "b".to_string(), "u".to_string()]
    );
}

#[test]
fn video_error_messages() {
    assert_eq!(VideoError::InitFailed.message(), "Failed to initialize FFmpeg.");
    assert_eq!(VideoError::NoVideoStream.message(), "Video stream not found.");
    assert_eq!(
        VideoError::FFmpeg("bad header".to_string()).message(),
        "FFmpeg error: bad header"
    );
    assert_eq!(VideoError::DecodingFailed.message(), "Failed to decode stream");
}

#[test]
fn video_source_carries_its_payload() {
    match VideoSource::File("sample.mp4".to_string()) {
        VideoSource::File(p) => assert_eq!(p, "sample.mp4"),
        VideoSource::Bytes(_) => panic!("expected a file source"),
    }
    match VideoSource::Bytes(vec![1, 2, 3]) {
        VideoSource::Bytes(b) => assert_eq!(b, vec![1, 2, 3]),
        VideoSource::File(_) => panic!("expected a byte source"),
    }
}

#[test]
fn concat_node_sums_partitions() {
    let node = ConcatNode::new(
        5,
        Some(2),
        vec!["a".to_string()],
        11,
        "other".to_string(),
        3,
        10,
        "child".to_string(),
        4,
    );
    assert_eq!(node.node_id, 5);
    assert_eq!(node.logical_node_id, Some(2));
    assert_eq!(node.num_partitions, 7);
    assert_eq!(node.child_ids, vec![10, 11]);
    assert_eq!(
        node.child_names,
        vec!["child".to_string(), "other".to_string()]
    );
    assert_eq!(node.multiline_display(), vec!["Concat".to_string()]);
    assert_eq!(node.display_as(true), "Concat\n");
    assert_eq!(node.display_as(false), "Concat\n");
    let shared: Arc<ConcatNode> = node.arced();
    assert_eq!(shared.num_partitions, 7);
}
