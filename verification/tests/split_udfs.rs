//! The splitting pass on whole plans: one test per shape of projection the
//! pass has to take apart.

use udf_split::expr::Expr;
use udf_split::plan::Plan;
use udf_split::rewrite::SplitUDFs;

fn col(n: &str) -> Expr {
    Expr::Column(n.to_string())
}

fn alias(e: Expr, n: &str) -> Expr {
    Expr::Alias(Box::new(e), n.to_string())
}

fn add(a: Expr, b: Expr) -> Expr {
    Expr::Other(1, vec![a, b])
}

fn create_actor_pool_udf(inputs: Vec<Expr>) -> Expr {
    Expr::Udf("foo".to_string(), inputs)
}

fn scan(cols: &[&str]) -> Plan {
    Plan::Source(cols.iter().map(|c| c.to_string()).collect())
}

fn project(input: Plan, exprs: Vec<Expr>) -> Plan {
    Plan::new_projection(input, exprs).unwrap()
}

fn udf_project(input: Plan, udf: Expr, pass: Vec<Expr>) -> Plan {
    Plan::new_udf_project(input, udf, pass).unwrap()
}

fn assert_optimized_plan_eq(plan: Plan, expected: Plan) {
    let optimized = SplitUDFs::new().try_optimize(&plan).unwrap();
    assert_eq!(optimized, expected);
    // The pass is idempotent: its output is a fixed point.
    let again = SplitUDFs::new().try_optimize(&optimized).unwrap();
    assert_eq!(again, expected);
}

#[test]
fn test_with_column_actor_pool_udf_happypath() {
    let scan_plan = scan(&["a"]);
    let actor_pool_project_expr = create_actor_pool_udf(vec![col("a")]);

    // Add a projection with the UDF aliased to "b" beside the scanned column.
    let project_plan = project(
        scan_plan.clone(),
        vec![col("a"), alias(actor_pool_project_expr.clone(), "b")],
    );

    let expected = project(scan_plan, vec![col("a")]);
    let expected = udf_project(expected, alias(actor_pool_project_expr, "b"), vec![col("a")]);
    let expected = project(expected, vec![col("a"), col("b")]);

    assert_optimized_plan_eq(project_plan, expected);
}

#[test]
fn test_multiple_with_column_parallel() {
    let scan_plan = scan(&["a", "b"]);
    let project_plan = project(
        scan_plan.clone(),
        vec![
            col("a"),
            col("b"),
            alias(
                create_actor_pool_udf(vec![create_actor_pool_udf(vec![col("a")])]),
                "a_prime",
            ),
            alias(
                create_actor_pool_udf(vec![create_actor_pool_udf(vec![col("b")])]),
                "b_prime",
            ),
        ],
    );

    let intermediate_column_name_0 = "__TruncateRootUDF_0-2-0__";
    let intermediate_column_name_1 = "__TruncateRootUDF_0-3-0__";
    let expected = project(scan_plan, vec![col("a"), col("b")]);
    let expected = udf_project(
        expected,
        alias(
            create_actor_pool_udf(vec![col("a")]),
            intermediate_column_name_0,
        ),
        vec![col("a"), col("b")],
    );
    let expected = udf_project(
        expected,
        alias(
            create_actor_pool_udf(vec![col("b")]),
            intermediate_column_name_1,
        ),
        vec![col("a"), col("b"), col(intermediate_column_name_0)],
    );
    let expected = project(
        expected,
        vec![
            col("a"),
            col("b"),
            col(intermediate_column_name_0),
            col(intermediate_column_name_1),
        ],
    );
    let expected = project(
        expected,
        vec![
            col(intermediate_column_name_0),
            col(intermediate_column_name_1),
            col("a"),
            col("b"),
        ],
    );
    let expected = udf_project(
        expected,
        alias(
            create_actor_pool_udf(vec![col(intermediate_column_name_0)]),
            "a_prime",
        ),
        vec![
            col(intermediate_column_name_0),
            col(intermediate_column_name_1),
            col("a"),
            col("b"),
        ],
    );
    let expected = udf_project(
        expected,
        alias(
            create_actor_pool_udf(vec![col(intermediate_column_name_1)]),
            "b_prime",
        ),
        vec![
            col(intermediate_column_name_0),
            col(intermediate_column_name_1),
            col("a"),
            col("b"),
            col("a_prime"),
        ],
    );
    let expected = project(
        expected,
        vec![col("a"), col("b"), col("a_prime"), col("b_prime")],
    );
    assert_optimized_plan_eq(project_plan, expected);
}

#[test]
fn test_multiple_with_column_serial() {
    let scan_plan = scan(&["a"]);
    let stacked_actor_pool_project_expr =
        create_actor_pool_udf(vec![create_actor_pool_udf(vec![col("a")])]);

    // Project([col("a"), foo(foo(col("a"))).alias("b")])
    let project_plan = project(
        scan_plan.clone(),
        vec![col("a"), alias(stacked_actor_pool_project_expr, "b")],
    );

    let intermediate_name = "__TruncateRootUDF_0-1-0__";
    let expected = project(scan_plan, vec![col("a")]);
    let expected = udf_project(
        expected,
        alias(create_actor_pool_udf(vec![col("a")]), intermediate_name),
        vec![col("a")],
    );
    let expected = project(expected, vec![col("a"), col(intermediate_name)]);
    let expected = project(expected, vec![col(intermediate_name), col("a")]);
    let expected = udf_project(
        expected,
        alias(create_actor_pool_udf(vec![col(intermediate_name)]), "b"),
        vec![col(intermediate_name), col("a")],
    );
    let expected = project(expected, vec![col("a"), col("b")]);
    assert_optimized_plan_eq(project_plan, expected);
}

#[test]
fn test_multiple_with_column_serial_no_alias() {
    let scan_plan = scan(&["a"]);
    let stacked_actor_pool_project_expr =
        create_actor_pool_udf(vec![create_actor_pool_udf(vec![col("a")])]);

    let project_plan = project(scan_plan.clone(), vec![stacked_actor_pool_project_expr]);

    let intermediate_name = "__TruncateRootUDF_0-0-0__";

    let expected = project(scan_plan, vec![col("a")]);
    let expected = udf_project(
        expected,
        alias(create_actor_pool_udf(vec![col("a")]), intermediate_name),
        vec![col("a")],
    );
    let expected = project(expected, vec![col(intermediate_name)]);
    let expected = project(expected, vec![col(intermediate_name)]);
    let expected = udf_project(
        expected,
        alias(create_actor_pool_udf(vec![col(intermediate_name)]), "a"),
        vec![col(intermediate_name)],
    );
    let expected = project(expected, vec![col("a")]);
    assert_optimized_plan_eq(project_plan, expected);
}

#[test]
fn test_multiple_with_column_serial_multiarg() {
    let scan_plan = scan(&["a", "b"]);
    let stacked_actor_pool_project_expr = create_actor_pool_udf(vec![
        create_actor_pool_udf(vec![col("a")]),
        create_actor_pool_udf(vec![col("b")]),
    ]);

    // Project([foo(foo(col("a")), foo(col("b"))).alias("c")])
    let project_plan = project(
        scan_plan.clone(),
        vec![alias(stacked_actor_pool_project_expr, "c")],
    );

    let intermediate_name_0 = "__TruncateRootUDF_0-0-0__";
    let intermediate_name_1 = "__TruncateRootUDF_0-0-1__";
    let expected = project(scan_plan, vec![col("a"), col("b")]);
    let expected = udf_project(
        expected,
        alias(create_actor_pool_udf(vec![col("a")]), intermediate_name_0),
        vec![col("a"), col("b")],
    );
    let expected = udf_project(
        expected,
        alias(create_actor_pool_udf(vec![col("b")]), intermediate_name_1),
        vec![col("a"), col("b"), col(intermediate_name_0)],
    );
    let expected = project(
        expected,
        vec![col(intermediate_name_0), col(intermediate_name_1)],
    );
    let expected = project(
        expected,
        vec![col(intermediate_name_0), col(intermediate_name_1)],
    );
    let expected = udf_project(
        expected,
        alias(
            create_actor_pool_udf(vec![col(intermediate_name_0), col(intermediate_name_1)]),
            "c",
        ),
        vec![col(intermediate_name_0), col(intermediate_name_1)],
    );
    let expected = project(expected, vec![col("c")]);
    assert_optimized_plan_eq(project_plan, expected);
}

#[test]
fn test_multiple_with_column_serial_multiarg_with_intermediate_stateless() {
    let scan_plan = scan(&["a", "b"]);
    let stacked_actor_pool_project_expr = create_actor_pool_udf(vec![add(
        create_actor_pool_udf(vec![col("a")]),
        create_actor_pool_udf(vec![col("b")]),
    )]);

    // Project([foo(foo(col("a")) + foo(col("b"))).alias("c")])
    let project_plan = project(
        scan_plan.clone(),
        vec![alias(stacked_actor_pool_project_expr, "c")],
    );

    let intermediate_name_0 = "__TruncateAnyUDFChildren_1-0-0__";
    let intermediate_name_1 = "__TruncateAnyUDFChildren_1-0-1__";
    let intermediate_name_2 = "__TruncateRootUDF_0-0-0__";
    let expected = project(scan_plan, vec![col("a"), col("b")]);
    let expected = udf_project(
        expected,
        alias(create_actor_pool_udf(vec![col("a")]), intermediate_name_0),
        vec![col("a"), col("b")],
    );
    let expected = udf_project(
        expected,
        alias(create_actor_pool_udf(vec![col("b")]), intermediate_name_1),
        vec![col("a"), col("b"), col(intermediate_name_0)],
    );
    let expected = project(
        expected,
        vec![col(intermediate_name_0), col(intermediate_name_1)],
    );
    let expected = project(
        expected,
        vec![
            col(intermediate_name_0),
            col(intermediate_name_1),
            alias(
                add(col(intermediate_name_0), col(intermediate_name_1)),
                intermediate_name_2,
            ),
        ],
    );
    let expected = project(expected, vec![col(intermediate_name_2)]);
    let expected = project(expected, vec![col(intermediate_name_2)]);
    let expected = udf_project(
        expected,
        alias(
            create_actor_pool_udf(vec![col(intermediate_name_2)]),
            "c",
        ),
        vec![col(intermediate_name_2)],
    );
    let expected = project(expected, vec![col("c")]);
    assert_optimized_plan_eq(project_plan, expected);
}

#[test]
fn test_nested_with_column_same_names() {
    let scan_plan = scan(&["a"]);
    let stacked_actor_pool_project_expr = create_actor_pool_udf(vec![add(
        col("a"),
        create_actor_pool_udf(vec![col("a")]),
    )]);

    // Project([col("a"), foo(col("a") + foo(col("a"))).alias("c")])
    let project_plan = project(
        scan_plan.clone(),
        vec![col("a"), alias(stacked_actor_pool_project_expr, "c")],
    );

    let intermediate_name_0 = "__TruncateAnyUDFChildren_1-1-0__";
    let intermediate_name_1 = "__TruncateRootUDF_0-1-0__";
    let expected = scan_plan;
    let expected = project(expected, vec![col("a")]);
    let expected = udf_project(
        expected,
        alias(create_actor_pool_udf(vec![col("a")]), intermediate_name_0),
        vec![col("a")],
    );
    let expected = project(expected, vec![col("a"), col(intermediate_name_0)]);
    let expected = project(
        expected,
        vec![
            col(intermediate_name_0),
            col("a"),
            alias(
                add(col("a"), col(intermediate_name_0)),
                intermediate_name_1,
            ),
        ],
    );
    let expected = project(expected, vec![col("a"), col(intermediate_name_1)]);
    let expected = project(expected, vec![col(intermediate_name_1), col("a")]);
    let expected = udf_project(
        expected,
        alias(create_actor_pool_udf(vec![col(intermediate_name_1)]), "c"),
        vec![col(intermediate_name_1), col("a")],
    );
    let expected = project(expected, vec![col("a"), col("c")]);

    assert_optimized_plan_eq(project_plan, expected);
}

#[test]
fn test_stateless_expr_with_only_some_actor_pool_children() {
    let scan_plan = scan(&["a"]);

    // (col("a") + col("a"))  +  foo(col("a"))
    let actor_pool_project_expr = alias(
        add(
            add(col("a"), col("a")),
            create_actor_pool_udf(vec![col("a")]),
        ),
        "result",
    );
    let project_plan = project(scan_plan.clone(), vec![col("a"), actor_pool_project_expr]);

    let intermediate_name_0 = "__TruncateAnyUDFChildren_0-1-0__";
    let expected = scan_plan;
    let expected = project(expected, vec![col("a")]);
    let expected = udf_project(
        expected,
        alias(create_actor_pool_udf(vec![col("a")]), intermediate_name_0),
        vec![col("a")],
    );
    let expected = project(expected, vec![col("a"), col(intermediate_name_0)]);
    let expected = project(
        expected,
        vec![
            col(intermediate_name_0),
            col("a"),
            alias(
                add(add(col("a"), col("a")), col(intermediate_name_0)),
                "result",
            ),
        ],
    );
    let expected = project(expected, vec![col("a"), col("result")]);

    assert_optimized_plan_eq(project_plan, expected);
}
