//! Boundary behaviors of the pass, the generated-name grammar, and the
//! error cases of plan construction.

use udf_split::expr::{Expr, LIST_MAP_ID};
use udf_split::names::{child_trunc_name, root_trunc_name};
use udf_split::plan::{Plan, RewriteError};
use udf_split::rewrite::{rewrite_plan, SplitUDFs};

fn col(n: &str) -> Expr {
    Expr::Column(n.to_string())
}

fn alias(e: Expr, n: &str) -> Expr {
    Expr::Alias(Box::new(e), n.to_string())
}

fn add(a: Expr, b: Expr) -> Expr {
    Expr::Other(1, vec![a, b])
}

fn foo(inputs: Vec<Expr>) -> Expr {
    Expr::Udf("foo".to_string(), inputs)
}

fn list_map(inputs: Vec<Expr>) -> Expr {
    Expr::ScalarFn(LIST_MAP_ID, inputs)
}

fn scan(cols: &[&str]) -> Plan {
    Plan::Source(cols.iter().map(|c| c.to_string()).collect())
}

fn project(input: Plan, exprs: Vec<Expr>) -> Plan {
    Plan::new_projection(input, exprs).unwrap()
}

#[test]
fn stateless_projection_unchanged() {
    // A projection consisting solely of non-UDF expressions comes back
    // unchanged.
    let plan = project(
        scan(&["a", "b"]),
        vec![col("a"), alias(add(col("a"), col("b")), "s")],
    );
    let out = rewrite_plan(&plan).unwrap();
    assert_eq!(out, plan);
}

#[test]
fn non_projection_nodes_pass_through() {
    // Nodes other than projections are forwarded unchanged; projections
    // below them are still rewritten.
    let inner = project(scan(&["a"]), vec![col("a"), alias(foo(vec![col("a")]), "b")]);
    let other = Plan::Other(
        7,
        vec![inner],
        vec!["a".to_string(), "b".to_string()],
    );
    let out = rewrite_plan(&other).unwrap();
    match out {
        Plan::Other(op, children, schema) => {
            assert_eq!(op, 7);
            assert_eq!(schema, vec!["a".to_string(), "b".to_string()]);
            assert_eq!(children.len(), 1);
            // The inner projection was split into a chain ending in a select.
            match &children[0] {
                Plan::Projection(_, exprs) => {
                    assert_eq!(exprs, &vec![col("a"), col("b")]);
                }
                p => panic!("expected a projection at the top of the chain, got {:?}", p),
            }
        }
        p => panic!("expected the opaque node to survive, got {:?}", p),
    }
}

#[test]
fn list_map_body_is_not_split() {
    // A `list_map` whose body contains a UDF is opaque: the UDF survives
    // unchanged beneath it and the projection is returned as it was.
    let lm = list_map(vec![col("a"), foo(vec![col("a")])]);
    let plan = project(scan(&["a"]), vec![alias(lm.clone(), "m")]);
    let out = rewrite_plan(&plan).unwrap();
    assert_eq!(out, plan);
    match out {
        Plan::Projection(_, exprs) => {
            assert_eq!(exprs[0], alias(lm, "m"));
        }
        p => panic!("expected the projection to survive, got {:?}", p),
    }
}

#[test]
fn list_map_entry_beside_splittable_udf() {
    // An entry whose only UDF sits beneath a `list_map` takes the no-UDF
    // path: it passes through whole (no extra alias is wrapped around it) and
    // the columns it reads are still provided to it, while the splittable
    // entry beside it is staged as usual.
    let lm_entry = list_map(vec![col("a"), foo(vec![col("a")])]);
    let plan = project(
        scan(&["a"]),
        vec![lm_entry.clone(), alias(foo(vec![col("a")]), "b")],
    );
    let out = rewrite_plan(&plan).unwrap();
    let expected = project(scan(&["a"]), vec![lm_entry]);
    let expected = Plan::new_udf_project(
        expected,
        alias(foo(vec![col("a")]), "b"),
        vec![col("a")],
    )
    .unwrap();
    let expected = project(expected, vec![col("a"), col("b")]);
    assert_eq!(out, expected);
}

#[test]
fn single_udf_single_column_shape() {
    // A projection of a single UDF over a single column becomes exactly:
    // pre-project of the input column, one single-UDF projection, and a
    // final select of the original output name.
    let plan = project(scan(&["a"]), vec![alias(foo(vec![col("a")]), "u")]);
    let out = rewrite_plan(&plan).unwrap();
    let expected = project(scan(&["a"]), vec![col("a")]);
    let expected = Plan::new_udf_project(
        expected,
        alias(foo(vec![col("a")]), "u"),
        vec![col("a")],
    )
    .unwrap();
    let expected = project(expected, vec![col("u")]);
    assert_eq!(out, expected);
}

#[test]
fn rewrite_is_idempotent_on_a_deep_plan() {
    let plan = project(
        scan(&["a", "b"]),
        vec![
            col("a"),
            alias(foo(vec![add(foo(vec![col("a")]), foo(vec![col("b")]))]), "c"),
        ],
    );
    let once = rewrite_plan(&plan).unwrap();
    let twice = rewrite_plan(&once).unwrap();
    assert_eq!(twice, once);
}

#[test]
fn empty_projection_unchanged() {
    // A projection with no expressions has no UDFs and comes back unchanged.
    let plan = project(scan(&["a"]), vec![]);
    let out = rewrite_plan(&plan).unwrap();
    assert_eq!(out, plan);
}

#[test]
fn generated_name_grammar() {
    assert_eq!(root_trunc_name(0, 2, 0), "__TruncateRootUDF_0-2-0__");
    assert_eq!(root_trunc_name(1, 0, 3), "__TruncateRootUDF_1-0-3__");
    assert_eq!(root_trunc_name(12, 3, 45), "__TruncateRootUDF_12-3-45__");
    assert_eq!(root_trunc_name(100, 0, 0), "__TruncateRootUDF_100-0-0__");
    assert_eq!(
        child_trunc_name(1, 0, 1),
        "__TruncateAnyUDFChildren_1-0-1__"
    );
    assert_eq!(
        child_trunc_name(0, 10, 2),
        "__TruncateAnyUDFChildren_0-10-2__"
    );
}

#[test]
fn malformed_projection_missing_column() {
    // A column reference not produced by the input is rejected.
    let r = Plan::new_projection(scan(&["a"]), vec![col("b")]);
    assert_eq!(r, Err(RewriteError::MalformedPlan));
}

#[test]
fn malformed_projection_duplicate_names() {
    let r = Plan::new_projection(scan(&["a"]), vec![col("a"), alias(col("a"), "a")]);
    assert_eq!(r, Err(RewriteError::MalformedPlan));
}

#[test]
fn malformed_udf_project_root_not_udf() {
    // A single-UDF projection whose expression is not rooted at a UDF is
    // rejected.
    let r = Plan::new_udf_project(scan(&["a"]), add(col("a"), col("a")), vec![]);
    assert_eq!(r, Err(RewriteError::MalformedPlan));
}

#[test]
fn malformed_udf_project_computed_passthrough() {
    // Passthroughs must be bare column references.
    let r = Plan::new_udf_project(
        scan(&["a"]),
        alias(foo(vec![col("a")]), "b"),
        vec![add(col("a"), col("a"))],
    );
    assert_eq!(r, Err(RewriteError::MalformedPlan));
}

#[test]
fn rewrite_propagates_malformed_plans() {
    // The splitter validates the chains it builds against their inputs, so a
    // raw projection over a column its input does not produce is reported.
    let bad = Plan::Projection(
        Box::new(scan(&["a"])),
        vec![alias(foo(vec![col("zzz")]), "b")],
    );
    let r = SplitUDFs::new().try_optimize(&bad);
    assert_eq!(r, Err(RewriteError::MalformedPlan));
}

#[test]
fn output_names_preserved_in_order() {
    // The final select restores the original output names in their original
    // order, whatever the chain in between looks like.
    let plan = project(
        scan(&["a", "b"]),
        vec![
            alias(foo(vec![col("b")]), "x"),
            col("a"),
            alias(add(col("a"), col("b")), "y"),
        ],
    );
    let out = rewrite_plan(&plan).unwrap();
    assert_eq!(
        out.schema(),
        vec!["x".to_string(), "a".to_string(), "y".to_string()]
    );
    match out {
        Plan::Projection(_, exprs) => {
            assert_eq!(exprs, vec![col("x"), col("a"), col("y")]);
        }
        p => panic!("expected a final select, got {:?}", p),
    }
}
