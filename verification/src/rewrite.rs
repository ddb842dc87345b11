//! The splitting pass itself: the stage builder that turns one projection
//! into a chain `pre-project -> single-UDF projections -> final select`, and
//! the top-down driver that applies it to every projection of a plan.

use vstd::prelude::*;

use crate::expr::{
    any_has_udf_skip_lm, clone_exprs, entry_lm_ok, expr_view, exprs_view, height_of,
    lemma_any_has_udf_skip_lm, lemma_exprs_view, lemma_has_udf_skip_implies_has_udf,
    lemma_height_at_least_one, lemma_max_height, lemma_max_height_le, lemma_names_set_prefix,
    lemma_req_cols_seq_member, max_height, name_of, names_of, names_set, req_col_set, req_cols,
    req_cols_seq, spec_alias_chain_is_udf, spec_has_udf, spec_has_udf_skip_lm,
    spec_no_list_map, spec_udf_args_simple, strs_view, Expr, ExprModel,
};
use crate::plan::{
    clone_strings, contains_name, distinct_names, lemma_all_plans_wf, lemma_plans_view,
    lemma_wf_schema_distinct, names_of_exprs, plan_view, plan_wf, plans_view, projection_ok,
    schema_of, udf_project_ok, Plan, PlanModel, RewriteError,
};
use crate::split::{
    entries_aliased, entries_lm_ok, remaining_item_ok, spec_split, split_projection,
};

verus! {

/// The invariant the pass establishes: no projection of the plan holds an
/// expression with a UDF outside `list_map` bodies. Single-UDF projections
/// are the one place UDFs remain.
pub open spec fn plan_fully_split(p: PlanModel) -> bool
    decreases p,
{
    match p {
        PlanModel::Source { .. } => true,
        PlanModel::Projection { input, exprs } => plan_fully_split(*input) && forall|i: int|
            0 <= i < exprs.len() ==> !spec_has_udf_skip_lm(#[trigger] exprs[i]),
        PlanModel::UdfProject { input, .. } => plan_fully_split(*input),
        PlanModel::Other { children, .. } => all_plans_fully_split(children),
    }
}

/// True iff every plan of `children` is fully split.
pub open spec fn all_plans_fully_split(children: Seq<PlanModel>) -> bool
    decreases children,
{
    if children.len() == 0 {
        true
    } else {
        plan_fully_split(children[0]) && all_plans_fully_split(children.drop_first())
    }
}

/// `all_plans_fully_split` holds iff every element is fully split.
pub proof fn lemma_all_plans_fully_split(children: Seq<PlanModel>)
    ensures
        #[trigger] all_plans_fully_split(children) <==> forall|i: int|
            0 <= i < children.len() ==> plan_fully_split(#[trigger] children[i]),
    decreases children,
{
    if children.len() > 0 {
        lemma_all_plans_fully_split(children.drop_first());
        if all_plans_fully_split(children) {
            assert forall|i: int| 0 <= i < children.len() implies plan_fully_split(
                children[i],
            ) by {
                if i > 0 {
                    assert(children.drop_first()[i - 1] == children[i]);
                }
            }
        }
        if forall|i: int| 0 <= i < children.len() ==> plan_fully_split(#[trigger] children[i]) {
            assert(plan_fully_split(children[0]));
            assert forall|j: int| 0 <= j < children.drop_first().len() implies plan_fully_split(
                #[trigger] children.drop_first()[j],
            ) by {
                assert(children.drop_first()[j] == children[j + 1]);
            }
        }
    }
}

/// True iff no expression held by any node of the plan contains a UDF.
pub open spec fn plan_udf_free(p: PlanModel) -> bool
    decreases p,
{
    match p {
        PlanModel::Source { .. } => true,
        PlanModel::Projection { input, exprs } => plan_udf_free(*input) && forall|i: int|
            0 <= i < exprs.len() ==> !spec_has_udf(#[trigger] exprs[i]),
        PlanModel::UdfProject { input, udf, passthrough } => plan_udf_free(*input)
            && !spec_has_udf(udf) && forall|i: int|
            0 <= i < passthrough.len() ==> !spec_has_udf(#[trigger] passthrough[i]),
        PlanModel::Other { children, .. } => all_plans_udf_free(children),
    }
}

/// True iff every plan of `children` is free of UDFs.
pub open spec fn all_plans_udf_free(children: Seq<PlanModel>) -> bool
    decreases children,
{
    if children.len() == 0 {
        true
    } else {
        plan_udf_free(children[0]) && all_plans_udf_free(children.drop_first())
    }
}

/// A plan without any UDF is already fully split, so by the fixed-point
/// clause of `rewrite_plan` the pass returns such a plan unchanged.
pub proof fn lemma_udf_free_plan_is_fully_split(p: PlanModel)
    requires
        plan_udf_free(p),
    ensures
        plan_fully_split(p),
    decreases p,
{
    match p {
        PlanModel::Source { .. } => {},
        PlanModel::Projection { input, exprs } => {
            lemma_udf_free_plan_is_fully_split(*input);
            assert forall|i: int| 0 <= i < exprs.len() implies !spec_has_udf_skip_lm(
                #[trigger] exprs[i],
            ) by {
                if spec_has_udf_skip_lm(exprs[i]) {
                    lemma_has_udf_skip_implies_has_udf(exprs[i]);
                }
            }
        },
        PlanModel::UdfProject { input, .. } => {
            lemma_udf_free_plan_is_fully_split(*input);
        },
        PlanModel::Other { children, .. } => {
            lemma_all_plans_udf_free_fully_split(children);
        },
    }
}

/// The sequence form of `lemma_udf_free_plan_is_fully_split`.
pub proof fn lemma_all_plans_udf_free_fully_split(children: Seq<PlanModel>)
    requires
        all_plans_udf_free(children),
    ensures
        all_plans_fully_split(children),
    decreases children,
{
    if children.len() > 0 {
        lemma_udf_free_plan_is_fully_split(children[0]);
        lemma_all_plans_udf_free_fully_split(children.drop_first());
    }
}

/// When the pass owes success: every projection of the plan resolves, no
/// entry of any projection mixes a UDF with `list_map`, and entry heights fit
/// the machine's index range. On such plans, paired with `plan_wf`, the pass
/// returns a rewritten plan rather than an error.
pub open spec fn plan_split_ready(p: PlanModel) -> bool
    decreases p,
{
    match p {
        PlanModel::Source { .. } => true,
        PlanModel::Projection { input, exprs } => plan_split_ready(*input) && (forall|i: int|
            0 <= i < exprs.len() ==> entry_lm_ok(#[trigger] exprs[i])) && max_height(exprs) + 1
            <= usize::MAX,
        PlanModel::UdfProject { input, .. } => plan_split_ready(*input),
        PlanModel::Other { children, .. } => all_plans_split_ready(children),
    }
}

/// True iff the pass owes success on every plan of `children`.
pub open spec fn all_plans_split_ready(children: Seq<PlanModel>) -> bool
    decreases children,
{
    if children.len() == 0 {
        true
    } else {
        plan_split_ready(children[0]) && all_plans_split_ready(children.drop_first())
    }
}

/// `all_plans_split_ready` holds iff it holds of every element.
pub proof fn lemma_all_plans_split_ready(children: Seq<PlanModel>)
    ensures
        #[trigger] all_plans_split_ready(children) <==> forall|i: int|
            0 <= i < children.len() ==> plan_split_ready(#[trigger] children[i]),
    decreases children,
{
    if children.len() > 0 {
        lemma_all_plans_split_ready(children.drop_first());
        if all_plans_split_ready(children) {
            assert forall|i: int| 0 <= i < children.len() implies plan_split_ready(
                children[i],
            ) by {
                if i > 0 {
                    assert(children.drop_first()[i - 1] == children[i]);
                }
            }
        }
        if forall|i: int| 0 <= i < children.len() ==> plan_split_ready(#[trigger] children[i]) {
            assert(plan_split_ready(children[0]));
            assert forall|j: int| 0 <= j < children.drop_first().len() implies plan_split_ready(
                #[trigger] children.drop_first()[j],
            ) by {
                assert(children.drop_first()[j] == children[j + 1]);
            }
        }
    }
}

/// The second half of the single-UDF shape: every single-UDF projection's
/// expression is an alias chain ending in a UDF whose arguments are all
/// leaves, so the node holds exactly one UDF, at its root. The pass only ever
/// builds such stages, and preserves the property of the stages it forwards.
pub open spec fn plan_stages_simple(p: PlanModel) -> bool
    decreases p,
{
    match p {
        PlanModel::Source { .. } => true,
        PlanModel::Projection { input, .. } => plan_stages_simple(*input),
        PlanModel::UdfProject { input, udf, .. } => plan_stages_simple(*input)
            && spec_udf_args_simple(udf),
        PlanModel::Other { children, .. } => all_plans_stages_simple(children),
    }
}

/// True iff every plan of `children` has only simple single-UDF stages.
pub open spec fn all_plans_stages_simple(children: Seq<PlanModel>) -> bool
    decreases children,
{
    if children.len() == 0 {
        true
    } else {
        plan_stages_simple(children[0]) && all_plans_stages_simple(children.drop_first())
    }
}

/// `all_plans_stages_simple` holds iff it holds of every element.
pub proof fn lemma_all_plans_stages_simple(children: Seq<PlanModel>)
    ensures
        #[trigger] all_plans_stages_simple(children) <==> forall|i: int|
            0 <= i < children.len() ==> plan_stages_simple(#[trigger] children[i]),
    decreases children,
{
    if children.len() > 0 {
        lemma_all_plans_stages_simple(children.drop_first());
        if all_plans_stages_simple(children) {
            assert forall|i: int| 0 <= i < children.len() implies plan_stages_simple(
                children[i],
            ) by {
                if i > 0 {
                    assert(children.drop_first()[i - 1] == children[i]);
                }
            }
        }
        if forall|i: int| 0 <= i < children.len() ==> plan_stages_simple(#[trigger] children[i]) {
            assert(plan_stages_simple(children[0]));
            assert forall|j: int| 0 <= j < children.drop_first().len() implies plan_stages_simple(
                #[trigger] children.drop_first()[j],
            ) by {
                assert(children.drop_first()[j] == children[j + 1]);
            }
        }
    }
}

/// The two stage families of a truncated projection list, in order: the
/// expressions still holding a UDF outside `list_map` bodies, and the
/// stateless rest.
pub open spec fn partition_stages(truncated: Seq<ExprModel>) -> (Seq<ExprModel>, Seq<ExprModel>)
    decreases truncated,
{
    if truncated.len() == 0 {
        (Seq::<ExprModel>::empty(), Seq::<ExprModel>::empty())
    } else {
        let rest = partition_stages(truncated.drop_first());
        if spec_has_udf_skip_lm(truncated[0]) {
            (seq![truncated[0]] + rest.0, rest.1)
        } else {
            (rest.0, seq![truncated[0]] + rest.1)
        }
    }
}

/// Folds the single-UDF stages onto `current`, in order, each passing through
/// every column of the stage below except the one it redefines; fails where a
/// stage does not validate against the stage below it.
pub open spec fn fold_udf_stages(current: PlanModel, udfs: Seq<ExprModel>) -> Result<PlanModel, ()>
    decreases udfs,
{
    if udfs.len() == 0 {
        Ok(current)
    } else {
        let u = udfs[0];
        let pass = spec_select_except(schema_of(current), seq![name_of(u)]);
        if udf_project_ok(current, u, pass) {
            fold_udf_stages(
                PlanModel::UdfProject { input: Box::new(current), udf: u, passthrough: pass },
                udfs.drop_first(),
            )
        } else {
            Err(())
        }
    }
}

/// The chain the stage builder emits over the already staged child
/// `new_child`, given the truncated expressions of the current stage: the
/// stateless pre-projection (the child's columns that no stateless stage
/// redefines, in schema order, then the stateless stages), one single-UDF
/// projection per lifted stage, in order, and the final select of the
/// entries' names in their original order.
pub open spec fn stage_chain(
    entries: Seq<ExprModel>,
    truncated: Seq<ExprModel>,
    new_child: PlanModel,
    out: PlanModel,
) -> bool {
    let parts = partition_stages(truncated);
    let pre_entries = spec_select_except(schema_of(new_child), names_of(parts.1)) + parts.1;
    let pre = PlanModel::Projection { input: Box::new(new_child), exprs: pre_entries };
    match fold_udf_stages(pre, parts.0) {
        Ok(current) => out == (PlanModel::Projection {
            input: Box::new(current),
            exprs: Seq::new(
                entries.len(),
                |i: int| ExprModel::Column { name: name_of(entries[i]) },
            ),
        }),
        Err(()) => false,
    }
}

/// True iff every expression of `v` is a bare column reference.
fn all_columns(v: &Vec<Expr>) -> (r: bool)
    ensures
        r <==> forall|i: int| 0 <= i < v@.len() ==> (#[trigger] expr_view(v@[i])) is Column,
{
    let n = v.len();
    let mut i: usize = 0;
    while i < n
        invariant
            n == v.len(),
            i <= n,
            forall|j: int| 0 <= j < i ==> (#[trigger] expr_view(v@[j])) is Column,
        decreases n - i,
    {
        let is_col = matches!(&v[i], Expr::Column(_));
        if !is_col {
            proof {
                assert(!(expr_view(v@[i as int]) is Column));
            }
            return false;
        }
        i += 1;
    }
    true
}

/// One column reference per name of `schema` that does not occur in `excl`,
/// in schema order.
pub open spec fn spec_select_except(schema: Seq<Seq<char>>, excl: Seq<Seq<char>>) -> Seq<ExprModel>
    decreases schema,
{
    if schema.len() == 0 {
        Seq::<ExprModel>::empty()
    } else if excl.contains(schema[0]) {
        spec_select_except(schema.drop_first(), excl)
    } else {
        seq![ExprModel::Column { name: schema[0] }] + spec_select_except(schema.drop_first(), excl)
    }
}

#[verifier::loop_isolation(false)]
fn select_columns_except(schema: &Vec<String>, excl: &Vec<String>) -> (r: Vec<Expr>)
    ensures
        exprs_view(r@) == spec_select_except(strs_view(schema@), strs_view(excl@)),
        forall|a: int| 0 <= a < r@.len() ==> (#[trigger] expr_view(r@[a])) is Column,
        forall|a: int|
            0 <= a < r@.len() ==> !spec_has_udf_skip_lm(#[trigger] expr_view(r@[a])),
        forall|a: int|
            0 <= a < r@.len() ==> strs_view(schema@).contains(
                name_of(#[trigger] expr_view(r@[a])),
            ),
        forall|a: int|
            0 <= a < r@.len() ==> !strs_view(excl@).contains(name_of(#[trigger] expr_view(r@[a]))),
        forall|a: int|
            0 <= a < r@.len() ==> req_col_set(#[trigger] expr_view(r@[a])).subset_of(
                strs_view(schema@).to_set(),
            ),
        distinct_names(strs_view(schema@)) ==> distinct_names(names_of(exprs_view(r@))),
        forall|x: Seq<char>|
            strs_view(schema@).contains(x) && !strs_view(excl@).contains(x) ==> names_of(
                exprs_view(r@),
            ).contains(x),
{
    let ghost sv = strs_view(schema@);
    let ghost xv = strs_view(excl@);
    let n = schema.len();
    let mut out: Vec<Expr> = Vec::new();
    proof {
        assert(sv.skip(0) =~= sv);
        assert(exprs_view(out@) =~= Seq::<ExprModel>::empty());
        assert(Seq::<ExprModel>::empty() + spec_select_except(sv, xv) =~= spec_select_except(
            sv,
            xv,
        ));
    }
    let ghost mut src: Seq<int> = Seq::empty();
    let mut j: usize = 0;
    while j < n
        invariant
            j <= n,
            sv == strs_view(schema@),
            xv == strs_view(excl@),
            sv.len() == n,
            exprs_view(out@) + spec_select_except(sv.skip(j as int), xv) == spec_select_except(
                sv,
                xv,
            ),
            src.len() == out@.len(),
            forall|a: int|
                0 <= a < out@.len() ==> 0 <= #[trigger] src[a] < j && expr_view(out@[a])
                    == (ExprModel::Column { name: strs_view(schema@)[src[a]] }),
            forall|a: int, b: int| 0 <= a < b < out@.len() ==> src[a] < src[b],
            forall|a: int|
                0 <= a < out@.len() ==> !strs_view(excl@).contains(
                    name_of(#[trigger] expr_view(out@[a])),
                ),
            forall|x: int|
                0 <= x < j && !strs_view(excl@).contains(#[trigger] strs_view(schema@)[x])
                    ==> exists|a: int|
                    0 <= a < out@.len() && name_of(#[trigger] expr_view(out@[a])) == strs_view(
                        schema@,
                    )[x],
        decreases n - j,
    {
        let ghost pre_out = out@;
        let ghost sufs = sv.skip(j as int);
        proof {
            assert(sufs.len() == n - j);
            assert(sufs[0] == sv[j as int]);
            assert(sufs.drop_first() =~= sv.skip(j as int + 1));
        }
        if !contains_name(excl, &schema[j]) {
            proof {
                assert(!xv.contains(sufs[0]));
                assert(spec_select_except(sufs, xv) == seq![
                    ExprModel::Column { name: sufs[0] },
                ] + spec_select_except(sufs.drop_first(), xv));
            }
            let col = Expr::Column(schema[j].clone());
            proof {
                assert(expr_view(col) == (ExprModel::Column { name: strs_view(schema@)[j as int] }));
            }
            out.push(col);
            proof {
                src = src.push(j as int);
                assert(name_of(expr_view(out@[out@.len() - 1])) == strs_view(schema@)[j as int]);
                lemma_exprs_view(out@);
                lemma_exprs_view(pre_out);
                assert(exprs_view(out@) =~= exprs_view(pre_out) + seq![
                    ExprModel::Column { name: sufs[0] },
                ]);
                assert((exprs_view(pre_out) + seq![ExprModel::Column { name: sufs[0] }])
                    + spec_select_except(sv.skip(j as int + 1), xv) =~= exprs_view(pre_out) + (seq![
                    ExprModel::Column { name: sufs[0] },
                ] + spec_select_except(sv.skip(j as int + 1), xv)));
            }
        } else {
            proof {
                assert(xv.contains(sufs[0]));
                assert(spec_select_except(sufs, xv) == spec_select_except(sufs.drop_first(), xv));
            }
        }
        proof {
            assert forall|x: int|
                0 <= x < j + 1 && !strs_view(excl@).contains(
                    #[trigger] strs_view(schema@)[x],
                ) implies exists|a: int|
                0 <= a < out@.len() && name_of(#[trigger] expr_view(out@[a])) == strs_view(
                    schema@,
                )[x] by {
                if x < j {
                    let a0 = choose|a0: int|
                        0 <= a0 < pre_out.len() && name_of(#[trigger] expr_view(pre_out[a0]))
                            == strs_view(schema@)[x];
                    assert(out@[a0] == pre_out[a0]);
                    assert(name_of(expr_view(out@[a0])) == strs_view(schema@)[x]);
                } else {
                    assert(name_of(expr_view(out@[out@.len() - 1])) == strs_view(schema@)[x]);
                }
            }
        }
        j += 1;
    }
    proof {
        assert(sv.skip(n as int) =~= Seq::<Seq<char>>::empty());
        assert(spec_select_except(sv.skip(n as int), xv) == Seq::<ExprModel>::empty());
        assert(exprs_view(out@) + Seq::<ExprModel>::empty() =~= exprs_view(out@));
        assert(exprs_view(out@) == spec_select_except(sv, xv));
        lemma_exprs_view(out@);
        assert forall|a: int| 0 <= a < out@.len() implies (#[trigger] expr_view(out@[a])) is Column
            && !spec_has_udf_skip_lm(expr_view(out@[a])) by {
            assert(expr_view(out@[a]) == (ExprModel::Column { name: strs_view(schema@)[src[a]] }));
        }
        assert forall|a: int| 0 <= a < out@.len() implies req_col_set(
            #[trigger] expr_view(out@[a]),
        ).subset_of(strs_view(schema@).to_set()) by {
            assert(expr_view(out@[a]) == (ExprModel::Column { name: strs_view(schema@)[src[a]] }));
            assert forall|x: Seq<char>| req_col_set(expr_view(out@[a])).contains(x) implies
                strs_view(schema@).to_set().contains(x) by {
                assert(x == strs_view(schema@)[src[a]]);
                assert(strs_view(schema@).contains(x));
            }
        }
        if distinct_names(strs_view(schema@)) {
            assert forall|a: int, b: int|
                0 <= a < b < names_of(exprs_view(out@)).len() implies names_of(
                exprs_view(out@),
            )[a] != names_of(exprs_view(out@))[b] by {
                assert(exprs_view(out@)[a] == expr_view(out@[a]));
                assert(exprs_view(out@)[b] == expr_view(out@[b]));
                assert(src[a] < src[b]);
            }
        }
        assert forall|x: Seq<char>|
            strs_view(schema@).contains(x) && !strs_view(excl@).contains(x) implies names_of(
            exprs_view(out@),
        ).contains(x) by {
            let xi = choose|xi: int|
                0 <= xi < strs_view(schema@).len() && strs_view(schema@)[xi] == x;
            let a = choose|a: int|
                0 <= a < out@.len() && name_of(expr_view(out@[a])) == strs_view(schema@)[xi];
            assert(names_of(exprs_view(out@))[a] == x);
        }
        assert forall|a: int| 0 <= a < out@.len() implies strs_view(schema@).contains(
            name_of(#[trigger] expr_view(out@[a])),
        ) by {
            assert(name_of(expr_view(out@[a])) == strs_view(schema@)[src[a]]);
        }
    }
    out
}

/// Entry aliasing: every expression that contains a UDF and is not already an
/// alias is wrapped as an alias of itself under its own derived name. This
/// fixes the user-visible output name before splitting renames intermediates.
/// An expression that is already an alias is trusted to carry the right name.
#[verifier::loop_isolation(false)]
fn alias_entries(exprs: &Vec<Expr>) -> (r: Vec<Expr>)
    ensures
        forall|i: int|
            0 <= i < exprs@.len() ==> #[trigger] exprs_view(r@)[i] == (if spec_has_udf_skip_lm(
                exprs_view(exprs@)[i],
            ) && !(exprs_view(exprs@)[i] is Alias) {
                ExprModel::Alias {
                    inner: Box::new(exprs_view(exprs@)[i]),
                    name: name_of(exprs_view(exprs@)[i]),
                }
            } else {
                exprs_view(exprs@)[i]
            }),
        r@.len() == exprs@.len(),
        entries_aliased(exprs_view(r@)),
        forall|i: int|
            0 <= i < exprs@.len() ==> name_of(#[trigger] exprs_view(r@)[i]) == name_of(
                exprs_view(exprs@)[i],
            ),
        forall|i: int|
            0 <= i < exprs@.len() ==> spec_has_udf_skip_lm(#[trigger] exprs_view(r@)[i])
                == spec_has_udf_skip_lm(exprs_view(exprs@)[i]),
        forall|i: int|
            0 <= i < exprs@.len() ==> req_col_set(#[trigger] exprs_view(r@)[i]) == req_col_set(
                exprs_view(exprs@)[i],
            ),
        forall|i: int|
            0 <= i < exprs@.len() ==> entry_lm_ok(#[trigger] exprs_view(r@)[i]) == entry_lm_ok(
                exprs_view(exprs@)[i],
            ),
        max_height(exprs_view(r@)) <= max_height(exprs_view(exprs@)) + 1,
{
    proof {
        lemma_exprs_view(exprs@);
        lemma_max_height(exprs_view(exprs@));
    }
    let ghost maxh = max_height(exprs_view(exprs@));
    let n = exprs.len();
    let mut out: Vec<Expr> = Vec::new();
    let mut i: usize = 0;
    while i < n
        invariant
            i <= n,
            out@.len() == i,
            forall|j: int|
                0 <= j < i ==> #[trigger] expr_view(out@[j]) == (if spec_has_udf_skip_lm(
                    exprs_view(exprs@)[j],
                ) && !(exprs_view(exprs@)[j] is Alias) {
                    ExprModel::Alias {
                        inner: Box::new(exprs_view(exprs@)[j]),
                        name: name_of(exprs_view(exprs@)[j]),
                    }
                } else {
                    exprs_view(exprs@)[j]
                }),
            forall|j: int|
                0 <= j < i ==> (spec_has_udf_skip_lm(#[trigger] expr_view(out@[j])) ==> expr_view(
                    out@[j],
                ) is Alias),
            forall|j: int|
                0 <= j < i ==> name_of(#[trigger] expr_view(out@[j])) == name_of(
                    exprs_view(exprs@)[j],
                ),
            forall|j: int|
                0 <= j < i ==> spec_has_udf_skip_lm(#[trigger] expr_view(out@[j]))
                    == spec_has_udf_skip_lm(exprs_view(exprs@)[j]),
            forall|j: int|
                0 <= j < i ==> req_col_set(#[trigger] expr_view(out@[j])) == req_col_set(
                    exprs_view(exprs@)[j],
                ),
            forall|j: int|
                0 <= j < i ==> entry_lm_ok(#[trigger] expr_view(out@[j])) == entry_lm_ok(
                    exprs_view(exprs@)[j],
                ),
            forall|j: int| 0 <= j < i ==> height_of(#[trigger] expr_view(out@[j])) <= maxh + 1,
        decreases n - i,
    {
        let e = &exprs[i];
        let already_alias = matches!(e, Expr::Alias(..));
        if e.has_udf_skip_lm() && !already_alias {
            let nm = e.name();
            let wrapped = Expr::Alias(Box::new(e.clone()), nm);
            proof {
                assert(expr_view(wrapped) == (ExprModel::Alias {
                    inner: Box::new(exprs_view(exprs@)[i as int]),
                    name: name_of(exprs_view(exprs@)[i as int]),
                }));
                assert(!(exprs_view(exprs@)[i as int] is Alias));
                assert(spec_has_udf_skip_lm(exprs_view(exprs@)[i as int]));
                assert(expr_view(wrapped) is Alias);
                assert(name_of(expr_view(wrapped)) == name_of(expr_view(exprs@[i as int])));
                assert(!crate::expr::spec_is_list_map(expr_view(wrapped)));
                assert(spec_has_udf_skip_lm(expr_view(wrapped)) == spec_has_udf_skip_lm(
                    expr_view(exprs@[i as int]),
                ));
                assert(req_col_set(expr_view(wrapped)) == req_col_set(expr_view(exprs@[i as int])));
                assert(spec_has_udf(expr_view(wrapped)) == spec_has_udf(
                    expr_view(exprs@[i as int]),
                ));
                assert(spec_no_list_map(expr_view(wrapped)) == spec_no_list_map(
                    expr_view(exprs@[i as int]),
                ));
                assert(height_of(expr_view(wrapped)) == 1 + height_of(expr_view(exprs@[i as int])));
                assert(exprs_view(exprs@)[i as int] == expr_view(exprs@[i as int]));
                assert(height_of(exprs_view(exprs@)[i as int]) <= maxh);
            }
            out.push(wrapped);
        } else {
            let kept = e.clone();
            proof {
                assert(expr_view(kept) == exprs_view(exprs@)[i as int]);
                assert(spec_has_udf_skip_lm(exprs_view(exprs@)[i as int]) ==> exprs_view(exprs@)[i
                    as int] is Alias || already_alias);
                if spec_has_udf_skip_lm(expr_view(kept)) {
                    assert(expr_view(kept) is Alias);
                }
                assert(exprs_view(exprs@)[i as int] == expr_view(exprs@[i as int]));
                assert(height_of(exprs_view(exprs@)[i as int]) <= maxh);
                assert(height_of(expr_view(kept)) <= maxh);
            }
            out.push(kept);
        }
        i += 1;
    }
    proof {
        lemma_exprs_view(out@);
        assert forall|j: int| 0 <= j < exprs_view(out@).len() implies height_of(
            #[trigger] exprs_view(out@)[j],
        ) <= maxh + 1 by {
            assert(exprs_view(out@)[j] == expr_view(out@[j]));
        }
        lemma_max_height_le(exprs_view(out@), maxh + 1);
    }
    out
}

/// Builds the staged replacement for the projection `(input, exprs)` at
/// recursion depth `depth`. If no expression holds a UDF outside `list_map`
/// bodies the projection is rebuilt unchanged; otherwise the list is split,
/// the remaining work is
/// recursively staged below, and the chain `pre-project -> one single-UDF
/// projection per lifted UDF -> final select` is built on top. The final
/// select restores the original output names in their original order.
/// Success is owed whenever the projection resolves against its input, no
/// entry mixes a UDF with `list_map`, and the entries' height fits the
/// machine's index range.
#[verifier::loop_isolation(false)]
#[verifier::rlimit(60)]
pub fn optimize_projection(input: &Plan, exprs: &Vec<Expr>, depth: usize) -> (r: Result<
    Plan,
    RewriteError,
>)
    requires
        entries_aliased(exprs_view(exprs@)),
        plan_fully_split(input@),
    ensures
        r matches Ok(out) ==> schema_of(out@) == names_of(exprs_view(exprs@)),
        r matches Ok(out) ==> plan_fully_split(out@),
        r matches Ok(out) ==> (plan_wf(input@) ==> plan_wf(out@)),
        r matches Ok(out) ==> (plan_stages_simple(input@) ==> plan_stages_simple(out@)),
        !any_has_udf_skip_lm(exprs_view(exprs@)) ==> ((r is Ok <==> projection_ok(
            input@,
            exprs_view(exprs@),
        )) && (r matches Ok(out) ==> out@ == (PlanModel::Projection {
            input: Box::new(input@),
            exprs: exprs_view(exprs@),
        }))),
        (plan_wf(input@) && projection_ok(input@, exprs_view(exprs@)) && entries_lm_ok(
            exprs_view(exprs@),
        ) && depth + max_height(exprs_view(exprs@)) <= usize::MAX) ==> r is Ok,
        r matches Ok(out) ==> (any_has_udf_skip_lm(exprs_view(exprs@)) ==> (out@ matches
            PlanModel::Projection { exprs: fin, .. } && fin == Seq::new(
            exprs_view(exprs@).len(),
            |i: int| ExprModel::Column { name: name_of(exprs_view(exprs@)[i]) },
        ))),
        r matches Ok(out) ==> (any_has_udf_skip_lm(exprs_view(exprs@)) ==> ({
            let sp = spec_split(exprs_view(exprs@), depth as nat);
            if forall|m: int| 0 <= m < sp.1.len() ==> (#[trigger] sp.1[m]) is Column {
                stage_chain(exprs_view(exprs@), sp.0, input@, out@)
            } else {
                exists|child: PlanModel|
                    #[trigger] stage_chain(exprs_view(exprs@), sp.0, child, out@) && schema_of(
                        child,
                    ) == names_of(sp.1) && plan_fully_split(child)
            }
        })),
    decreases max_height(exprs_view(exprs@)),
{
    proof {
        lemma_exprs_view(exprs@);
        lemma_any_has_udf_skip_lm(exprs_view(exprs@));
        lemma_max_height(exprs_view(exprs@));
    }
    let ghost bound = max_height(exprs_view(exprs@));
    let ghost success_h = plan_wf(input@) && projection_ok(input@, exprs_view(exprs@))
        && entries_lm_ok(exprs_view(exprs@)) && depth + bound <= usize::MAX;
    let has_udfs = Expr::args_have_udf_skip_lm(exprs);
    if !has_udfs {
        let r = Plan::new_projection(input.clone(), clone_exprs(exprs));
        proof {
            if r is Ok {
                let out = r->Ok_0;
                assert(out@ == (PlanModel::Projection {
                    input: Box::new(input@),
                    exprs: exprs_view(exprs@),
                }));
                assert(schema_of(out@) == names_of(exprs_view(exprs@)));
                assert(plan_fully_split(out@));
                if plan_stages_simple(input@) {
                    assert(plan_stages_simple(out@));
                }
            }
            if success_h {
                assert(r is Ok);
            }
        }
        return r;
    }
    let ghost schema_set = schema_of(input@).to_set().union(
        req_cols_seq(exprs_view(exprs@)).to_set(),
    );
    proof {
        assert forall|i: int| 0 <= i < exprs@.len() implies req_col_set(
            #[trigger] exprs_view(exprs@)[i],
        ).subset_of(schema_set) by {
            assert forall|x: Seq<char>| req_col_set(exprs_view(exprs@)[i]).contains(
                x,
            ) implies schema_set.contains(x) by {
                lemma_req_cols_seq_member(exprs_view(exprs@), x);
            }
        }
        if success_h {
            // Every entry resolves against the input, so the working set of
            // names is exactly the input schema.
            assert(schema_set =~= schema_of(input@).to_set()) by {
                assert forall|x: Seq<char>| schema_set.contains(x) implies schema_of(
                    input@,
                ).to_set().contains(x) by {
                    if req_cols_seq(exprs_view(exprs@)).to_set().contains(x) {
                        lemma_req_cols_seq_member(exprs_view(exprs@), x);
                        let i = choose|i: int|
                            0 <= i < exprs_view(exprs@).len() && req_cols(
                                #[trigger] exprs_view(exprs@)[i],
                            ).contains(x);
                        assert(req_col_set(exprs_view(exprs@)[i]).contains(x));
                    }
                }
            }
        }
    }
    let (truncated, remaining) = split_projection(exprs, depth, Ghost(schema_set));
    let ghost tv = exprs_view(truncated@);
    let ghost rv = exprs_view(remaining@);
    proof {
        lemma_exprs_view(truncated@);
        lemma_exprs_view(remaining@);
        assert(tv == spec_split(exprs_view(exprs@), depth as nat).0);
        assert(rv == spec_split(exprs_view(exprs@), depth as nat).1);
    }

    // Recurse on the remaining work unless it is already pure column
    // references, in which case the stage chain sits directly on `input`.
    let all_cols = all_columns(&remaining);
    let new_child: Plan = if all_cols {
        let c = input.clone();
        proof {
            if success_h {
                // Every remaining expression is a column the entries read,
                // so its name is in the input schema.
                assert forall|x: Seq<char>| names_set(exprs_view(remaining@)).contains(
                    x,
                ) implies schema_of(c@).to_set().contains(x) by {
                    let m = choose|m: int|
                        0 <= m < names_of(exprs_view(remaining@)).len() && names_of(
                            exprs_view(remaining@),
                        )[m] == x;
                    assert(exprs_view(remaining@)[m] == expr_view(remaining@[m]));
                    assert(expr_view(remaining@[m]) is Column);
                    assert(req_cols(expr_view(remaining@[m])) == seq![
                        name_of(expr_view(remaining@[m])),
                    ]);
                    assert(names_of(exprs_view(remaining@))[m] == name_of(
                        exprs_view(remaining@)[m],
                    ));
                    assert(x == name_of(expr_view(remaining@[m])));
                    assert(req_cols(expr_view(remaining@[m]))[0] == x);
                    assert(req_cols(expr_view(remaining@[m])).contains(x));
                    assert(req_col_set(expr_view(remaining@[m])).contains(x));
                    assert(schema_set.contains(x));
                }
            }
        }
        c
    } else {
        proof {
            // Some entry holds a UDF outside `list_map` bodies; by entry
            // aliasing it is an alias, so the tallest entry has height at
            // least 2, and everything remaining is strictly lower.
            let i = choose|i: int|
                0 <= i < exprs_view(exprs@).len() && spec_has_udf_skip_lm(exprs_view(exprs@)[i]);
            lemma_has_udf_skip_implies_has_udf(exprs_view(exprs@)[i]);
            assert(exprs_view(exprs@)[i] is Alias);
            lemma_height_at_least_one(*exprs_view(exprs@)[i]->inner);
            assert(height_of(exprs_view(exprs@)[i]) >= 2);
            assert(bound >= 2);
            assert forall|m: int| 0 <= m < exprs_view(remaining@).len() implies height_of(
                #[trigger] exprs_view(remaining@)[m],
            ) <= (bound - 1) as nat by {
                assert(exprs_view(remaining@)[m] == expr_view(remaining@[m]));
                assert(remaining_item_ok(expr_view(remaining@[m]), bound));
                if expr_view(remaining@[m]) is Column {
                    assert(height_of(expr_view(remaining@[m])) == 1);
                }
            }
            lemma_max_height_le(exprs_view(remaining@), (bound - 1) as nat);
        }
        let depth_next = match depth.checked_add(1) {
            Some(d) => d,
            None => {
                proof {
                    if success_h {
                        assert(false);
                    }
                }
                return Err(RewriteError::MalformedPlan);
            },
        };
        proof {
            if success_h {
                assert(projection_ok(input@, exprs_view(remaining@))) by {
                    assert forall|m: int| 0 <= m < exprs_view(remaining@).len() implies req_col_set(
                        #[trigger] exprs_view(remaining@)[m],
                    ).subset_of(schema_of(input@).to_set()) by {
                        assert(exprs_view(remaining@)[m] == expr_view(remaining@[m]));
                        assert(req_col_set(expr_view(remaining@[m])).subset_of(schema_set));
                    }
                }
                assert(entries_lm_ok(exprs_view(remaining@))) by {
                    assert forall|m: int| 0 <= m < exprs_view(remaining@).len() implies entry_lm_ok(
                        #[trigger] exprs_view(remaining@)[m],
                    ) by {
                        assert(exprs_view(remaining@)[m] == expr_view(remaining@[m]));
                    }
                }
            }
        }
        match optimize_projection(input, &remaining, depth_next) {
            Ok(p) => p,
            Err(er) => {
                proof {
                    if success_h {
                        assert(false);
                    }
                }
                return Err(er);
            },
        }
    };
    let ghost ncm = new_child@;
    let ghost all_cols_model = forall|m: int| 0 <= m < rv.len() ==> (#[trigger] rv[m]) is Column;
    proof {
        assert(all_cols == all_cols_model) by {
            if all_cols {
                assert forall|m: int| 0 <= m < rv.len() implies (#[trigger] rv[m]) is Column by {
                    assert(rv[m] == expr_view(remaining@[m]));
                }
            }
            if all_cols_model {
                assert forall|m: int|
                    0 <= m < remaining@.len() implies (#[trigger] expr_view(remaining@[m]))
                    is Column by {
                    assert(rv[m] == expr_view(remaining@[m]));
                }
            }
        }
        if all_cols {
            assert(ncm == input@);
        }
    }
    let ghost child_ok = plan_wf(new_child@) && names_set(exprs_view(remaining@)).subset_of(
        schema_of(new_child@).to_set(),
    );
    proof {
        if success_h {
            assert(child_ok);
        }
    }

    // Partition the truncated expressions: those still holding a UDF outside
    // `list_map` bodies each become one single-UDF stage; the rest are
    // stateless and run together, before any UDF.
    let nt = truncated.len();
    let mut udf_stages: Vec<Expr> = Vec::new();
    let mut stateless_stages: Vec<Expr> = Vec::new();
    proof {
        assert(tv.skip(0) =~= tv);
        assert(exprs_view(udf_stages@) =~= Seq::<ExprModel>::empty());
        assert(exprs_view(stateless_stages@) =~= Seq::<ExprModel>::empty());
        assert(Seq::<ExprModel>::empty() + partition_stages(tv).0 =~= partition_stages(tv).0);
        assert(Seq::<ExprModel>::empty() + partition_stages(tv).1 =~= partition_stages(tv).1);
    }
    let ghost mut src_s: Seq<int> = Seq::empty();
    let mut i: usize = 0;
    while i < nt
        invariant
            nt == truncated.len(),
            i <= nt,
            tv == exprs_view(truncated@),
            tv.len() == nt,
            exprs_view(udf_stages@) + partition_stages(tv.skip(i as int)).0 == partition_stages(
                tv,
            ).0,
            exprs_view(stateless_stages@) + partition_stages(tv.skip(i as int)).1
                == partition_stages(tv).1,
            forall|j: int|
                0 <= j < stateless_stages@.len() ==> !spec_has_udf_skip_lm(
                    #[trigger] expr_view(stateless_stages@[j]),
                ),
            src_s.len() == stateless_stages@.len(),
            forall|a: int|
                0 <= a < src_s.len() ==> 0 <= #[trigger] src_s[a] < i && expr_view(
                    stateless_stages@[a],
                ) == expr_view(truncated@[src_s[a]]),
            forall|a: int, b: int| 0 <= a < b < src_s.len() ==> src_s[a] < src_s[b],
            success_h ==> forall|b: int|
                0 <= b < udf_stages@.len() ==> spec_alias_chain_is_udf(
                    #[trigger] expr_view(udf_stages@[b]),
                ) && spec_udf_args_simple(expr_view(udf_stages@[b])) && req_col_set(
                    expr_view(udf_stages@[b]),
                ).subset_of(names_set(exprs_view(remaining@))),
            forall|b: int|
                0 <= b < udf_stages@.len() ==> (spec_alias_chain_is_udf(
                    #[trigger] expr_view(udf_stages@[b]),
                ) ==> spec_udf_args_simple(expr_view(udf_stages@[b]))),
            success_h ==> forall|a: int|
                0 <= a < stateless_stages@.len() ==> req_col_set(
                    #[trigger] expr_view(stateless_stages@[a]),
                ).subset_of(names_set(exprs_view(remaining@))),
            forall|ii: int|
                0 <= ii < i ==> names_of(exprs_view(stateless_stages@)).to_set().union(
                    names_of(exprs_view(udf_stages@)).to_set(),
                ).contains(name_of(#[trigger] expr_view(truncated@[ii]))),
        decreases nt - i,
    {
        let ghost pre_s = stateless_stages@;
        let ghost pre_u = udf_stages@;
        let ghost suft = tv.skip(i as int);
        proof {
            assert(suft.len() == nt - i);
            assert(suft[0] == tv[i as int]);
            assert(tv[i as int] == expr_view(truncated@[i as int]));
            assert(suft.drop_first() =~= tv.skip(i as int + 1));
        }
        if truncated[i].has_udf_skip_lm() {
            proof {
                if success_h {
                    assert(spec_alias_chain_is_udf(expr_view(truncated@[i as int]))
                        && spec_udf_args_simple(expr_view(truncated@[i as int])));
                    assert(req_col_set(expr_view(truncated@[i as int])).subset_of(
                        names_set(exprs_view(remaining@)),
                    ));
                }
            }
            proof {
                assert(spec_has_udf_skip_lm(suft[0]));
                assert(partition_stages(suft) == (
                    seq![suft[0]] + partition_stages(suft.drop_first()).0,
                    partition_stages(suft.drop_first()).1,
                ));
            }
            udf_stages.push(truncated[i].clone());
            proof {
                lemma_names_set_prefix(pre_u, udf_stages@);
                lemma_exprs_view(udf_stages@);
                lemma_exprs_view(pre_u);
                assert(exprs_view(udf_stages@) =~= exprs_view(pre_u) + seq![suft[0]]);
                assert((exprs_view(pre_u) + seq![suft[0]]) + partition_stages(
                    tv.skip(i as int + 1),
                ).0 =~= exprs_view(pre_u) + (seq![suft[0]] + partition_stages(
                    tv.skip(i as int + 1),
                ).0));
                assert(names_of(exprs_view(udf_stages@))[udf_stages@.len() - 1] == name_of(
                    expr_view(truncated@[i as int]),
                ));
                assert(names_of(exprs_view(udf_stages@)).to_set().contains(
                    name_of(expr_view(truncated@[i as int])),
                ));
            }
        } else {
            proof {
                assert(!spec_has_udf_skip_lm(suft[0]));
                assert(partition_stages(suft) == (
                    partition_stages(suft.drop_first()).0,
                    seq![suft[0]] + partition_stages(suft.drop_first()).1,
                ));
            }
            stateless_stages.push(truncated[i].clone());
            proof {
                src_s = src_s.push(i as int);
                lemma_names_set_prefix(pre_s, stateless_stages@);
                lemma_exprs_view(stateless_stages@);
                lemma_exprs_view(pre_s);
                assert(exprs_view(stateless_stages@) =~= exprs_view(pre_s) + seq![suft[0]]);
                assert((exprs_view(pre_s) + seq![suft[0]]) + partition_stages(
                    tv.skip(i as int + 1),
                ).1 =~= exprs_view(pre_s) + (seq![suft[0]] + partition_stages(
                    tv.skip(i as int + 1),
                ).1));
                assert(names_of(exprs_view(stateless_stages@))[stateless_stages@.len() - 1]
                    == name_of(expr_view(truncated@[i as int])));
                assert(names_of(exprs_view(stateless_stages@)).to_set().contains(
                    name_of(expr_view(truncated@[i as int])),
                ));
            }
        }
        i += 1;
    }
    let ghost uv = exprs_view(udf_stages@);
    let ghost slv = exprs_view(stateless_stages@);
    proof {
        assert(tv.skip(nt as int) =~= Seq::<ExprModel>::empty());
        assert(partition_stages(tv.skip(nt as int)) == (
            Seq::<ExprModel>::empty(),
            Seq::<ExprModel>::empty(),
        ));
        assert(uv + Seq::<ExprModel>::empty() =~= uv);
        assert(slv + Seq::<ExprModel>::empty() =~= slv);
        assert(uv == partition_stages(tv).0);
        assert(slv == partition_stages(tv).1);
        lemma_exprs_view(stateless_stages@);
        lemma_exprs_view(udf_stages@);
        if success_h {
            // Stateless stages carry the names of the entries they came from,
            // in order, so their names are pairwise distinct.
            assert forall|a: int, b: int|
                0 <= a < b < names_of(exprs_view(stateless_stages@)).len() implies names_of(
                exprs_view(stateless_stages@),
            )[a] != names_of(exprs_view(stateless_stages@))[b] by {
                assert(exprs_view(stateless_stages@)[a] == expr_view(stateless_stages@[a]));
                assert(exprs_view(stateless_stages@)[b] == expr_view(stateless_stages@[b]));
                assert(expr_view(stateless_stages@[a]) == expr_view(truncated@[src_s[a]]));
                assert(expr_view(stateless_stages@[b]) == expr_view(truncated@[src_s[b]]));
                assert(name_of(expr_view(truncated@[src_s[a]])) == name_of(
                    exprs_view(exprs@)[src_s[a]],
                ));
                assert(name_of(expr_view(truncated@[src_s[b]])) == name_of(
                    exprs_view(exprs@)[src_s[b]],
                ));
                assert(names_of(exprs_view(exprs@))[src_s[a]] == name_of(
                    exprs_view(exprs@)[src_s[a]],
                ));
                assert(names_of(exprs_view(exprs@))[src_s[b]] == name_of(
                    exprs_view(exprs@)[src_s[b]],
                ));
            }
        }
    }

    // The stateless pre-projection: every column of the child that a
    // stateless stage does not redefine passes through, then the stateless
    // stages themselves.
    let child_schema = new_child.schema();
    let sl_names = names_of_exprs(&stateless_stages);
    let mut stateless_projection: Vec<Expr> = select_columns_except(&child_schema, &sl_names);
    let ghost pass_len = stateless_projection@.len();
    let ghost pass_part = stateless_projection@;
    let nss = stateless_stages.len();
    let mut j2: usize = 0;
    while j2 < nss
        invariant
            nss == stateless_stages.len(),
            j2 <= nss,
            stateless_projection@.len() == pass_len + j2,
            forall|a: int| 0 <= a < pass_len ==> stateless_projection@[a] == pass_part[a],
            forall|a: int|
                pass_len <= a < stateless_projection@.len() ==> expr_view(
                    #[trigger] stateless_projection@[a],
                ) == expr_view(stateless_stages@[a - pass_len]),
            forall|a: int|
                0 <= a < stateless_projection@.len() ==> !spec_has_udf_skip_lm(
                    #[trigger] expr_view(stateless_projection@[a]),
                ),
        decreases nss - j2,
    {
        stateless_projection.push(stateless_stages[j2].clone());
        j2 += 1;
    }
    proof {
        lemma_exprs_view(stateless_projection@);
    }
    let ghost pre_entries = exprs_view(stateless_projection@);
    proof {
        if success_h {
            lemma_wf_schema_distinct(new_child@);
            assert(distinct_names(strs_view(child_schema@)));
            // The pre-projection's names are distinct and each entry resolves
            // against the child's schema.
            assert forall|a: int, b: int|
                0 <= a < b < names_of(pre_entries).len() implies names_of(pre_entries)[a]
                != names_of(pre_entries)[b] by {
                assert(pre_entries[a] == expr_view(stateless_projection@[a]));
                assert(pre_entries[b] == expr_view(stateless_projection@[b]));
                if a < pass_len && b < pass_len {
                    assert(expr_view(stateless_projection@[a]) == expr_view(pass_part[a]));
                    assert(expr_view(stateless_projection@[b]) == expr_view(pass_part[b]));
                    lemma_exprs_view(pass_part);
                    assert(names_of(exprs_view(pass_part))[a] == name_of(expr_view(pass_part[a])));
                    assert(names_of(exprs_view(pass_part))[b] == name_of(expr_view(pass_part[b])));
                    assert(distinct_names(names_of(exprs_view(pass_part))));
                } else if a < pass_len && b >= pass_len {
                    assert(expr_view(stateless_projection@[a]) == expr_view(pass_part[a]));
                    lemma_exprs_view(pass_part);
                    assert(!strs_view(sl_names@).contains(name_of(expr_view(pass_part[a]))));
                    assert(expr_view(stateless_projection@[b]) == expr_view(
                        stateless_stages@[b - pass_len],
                    ));
                    assert(strs_view(sl_names@)[b - pass_len] == name_of(
                        expr_view(stateless_stages@[b - pass_len]),
                    ));
                    assert(strs_view(sl_names@).contains(name_of(
                        expr_view(stateless_stages@[b - pass_len]),
                    )));
                } else {
                    assert(expr_view(stateless_projection@[a]) == expr_view(
                        stateless_stages@[a - pass_len],
                    ));
                    assert(expr_view(stateless_projection@[b]) == expr_view(
                        stateless_stages@[b - pass_len],
                    ));
                    assert(names_of(exprs_view(stateless_stages@))[a - pass_len] == name_of(
                        expr_view(stateless_stages@[a - pass_len]),
                    ));
                    assert(names_of(exprs_view(stateless_stages@))[b - pass_len] == name_of(
                        expr_view(stateless_stages@[b - pass_len]),
                    ));
                }
            }
            assert forall|a: int| 0 <= a < pre_entries.len() implies req_col_set(
                #[trigger] pre_entries[a],
            ).subset_of(schema_of(new_child@).to_set()) by {
                assert(pre_entries[a] == expr_view(stateless_projection@[a]));
                if a < pass_len {
                    assert(expr_view(stateless_projection@[a]) == expr_view(pass_part[a]));
                    lemma_exprs_view(pass_part);
                    assert(req_col_set(expr_view(pass_part[a])).subset_of(
                        strs_view(child_schema@).to_set(),
                    ));
                } else {
                    assert(expr_view(stateless_projection@[a]) == expr_view(
                        stateless_stages@[a - pass_len],
                    ));
                    assert(req_col_set(expr_view(stateless_stages@[a - pass_len])).subset_of(
                        names_set(exprs_view(remaining@)),
                    ));
                }
            }
            assert(projection_ok(new_child@, pre_entries));
        }
    }
    proof {
        assert(strs_view(child_schema@) == schema_of(ncm));
        assert(strs_view(sl_names@) == names_of(slv));
        assert(exprs_view(pass_part) == spec_select_except(schema_of(ncm), names_of(slv)));
        lemma_exprs_view(stateless_projection@);
        lemma_exprs_view(pass_part);
        assert(exprs_view(stateless_projection@) =~= spec_select_except(
            schema_of(ncm),
            names_of(slv),
        ) + slv) by {
            assert(exprs_view(stateless_projection@).len() == pass_len + slv.len());
            assert forall|a: int|
                0 <= a < exprs_view(stateless_projection@).len() implies exprs_view(
                stateless_projection@,
            )[a] == (spec_select_except(schema_of(ncm), names_of(slv)) + slv)[a] by {
                assert(exprs_view(stateless_projection@)[a] == expr_view(
                    stateless_projection@[a],
                ));
                if a < pass_len {
                    assert(expr_view(stateless_projection@[a]) == expr_view(pass_part[a]));
                    assert(exprs_view(pass_part)[a] == expr_view(pass_part[a]));
                } else {
                    assert(expr_view(stateless_projection@[a]) == expr_view(
                        stateless_stages@[a - pass_len],
                    ));
                    assert(slv[a - pass_len] == expr_view(stateless_stages@[a - pass_len]));
                }
            }
        }
    }
    let ghost pre_entries_m = spec_select_except(schema_of(ncm), names_of(slv)) + slv;
    let pre = match Plan::new_projection(new_child, stateless_projection) {
        Ok(p) => p,
        Err(er) => {
            proof {
                if success_h {
                    assert(false);
                }
            }
            return Err(er);
        },
    };
    proof {
        assert(plan_fully_split(pre@)) by {
            assert forall|a: int|
                0 <= a < exprs_view(stateless_projection@).len() implies !spec_has_udf_skip_lm(
                #[trigger] exprs_view(stateless_projection@)[a],
            ) by {
                lemma_exprs_view(stateless_projection@);
                assert(exprs_view(stateless_projection@)[a] == expr_view(
                    stateless_projection@[a],
                ));
            }
        }
        if success_h {
            // The pre-projection's schema covers the child's schema and in
            // particular everything the next stage provides.
            assert(schema_of(pre@) == names_of(pre_entries));
            assert forall|x: Seq<char>| schema_of(new_child@).to_set().contains(x) implies
                schema_of(pre@).to_set().contains(x) by {
                assert(strs_view(child_schema@).contains(x));
                if strs_view(sl_names@).contains(x) {
                    let a = choose|a: int|
                        0 <= a < strs_view(sl_names@).len() && strs_view(sl_names@)[a] == x;
                    assert(names_of(pre_entries)[pass_len + a] == name_of(
                        expr_view(stateless_stages@[a]),
                    ));
                    assert(names_of(pre_entries).contains(x));
                } else {
                    assert(names_of(exprs_view(pass_part)).contains(x));
                    let a = choose|a: int|
                        0 <= a < names_of(exprs_view(pass_part)).len() && names_of(
                            exprs_view(pass_part),
                        )[a] == x;
                    lemma_exprs_view(pass_part);
                    assert(names_of(pre_entries)[a] == name_of(expr_view(pass_part[a])));
                    assert(names_of(pre_entries).contains(x));
                }
            }
            assert forall|x: Seq<char>| names_of(exprs_view(stateless_stages@)).to_set().contains(
                x,
            ) implies schema_of(pre@).to_set().contains(x) by {
                let a = choose|a: int|
                    0 <= a < names_of(exprs_view(stateless_stages@)).len() && names_of(
                        exprs_view(stateless_stages@),
                    )[a] == x;
                assert(names_of(pre_entries)[pass_len + a] == name_of(
                    expr_view(stateless_stages@[a]),
                ));
                assert(names_of(pre_entries).contains(x));
            }
        }
    }

    // One single-UDF projection per lifted UDF stage, each passing through
    // every column of the stage below except the one it redefines.
    let ghost prem = pre@;
    proof {
        assert(prem == (PlanModel::Projection { input: Box::new(ncm), exprs: pre_entries_m }));
        assert(uv.skip(0) =~= uv);
    }
    let mut current = pre;
    let nu = udf_stages.len();
    let mut t: usize = 0;
    while t < nu
        invariant
            nu == udf_stages.len(),
            t <= nu,
            uv == exprs_view(udf_stages@),
            uv.len() == nu,
            fold_udf_stages(current@, uv.skip(t as int)) == fold_udf_stages(prem, uv),
            plan_fully_split(current@),
            plan_wf(input@) ==> plan_wf(current@),
            plan_stages_simple(input@) ==> plan_stages_simple(current@),
            success_h ==> plan_wf(current@),
            success_h ==> distinct_names(schema_of(current@)),
            success_h ==> names_set(exprs_view(remaining@)).subset_of(
                schema_of(current@).to_set(),
            ),
            success_h ==> names_of(exprs_view(stateless_stages@)).to_set().subset_of(
                schema_of(current@).to_set(),
            ),
            success_h ==> forall|b: int|
                0 <= b < t ==> schema_of(current@).to_set().contains(
                    name_of(#[trigger] expr_view(udf_stages@[b])),
                ),
        decreases nu - t,
    {
        let ghost old_schema = schema_of(current@);
        let ghost cur_m = current@;
        let ghost sufu = uv.skip(t as int);
        proof {
            assert(sufu.len() == nu - t);
            assert(sufu[0] == uv[t as int]);
            assert(uv[t as int] == expr_view(udf_stages@[t as int]));
            assert(sufu.drop_first() =~= uv.skip(t as int + 1));
        }
        let u = udf_stages[t].clone();
        let uname = u.name();
        let cur_schema = current.schema();
        let mut excl: Vec<String> = Vec::new();
        excl.push(uname);
        proof {
            assert(strs_view(excl@) =~= seq![name_of(expr_view(udf_stages@[t as int]))]);
        }
        let pass = select_columns_except(&cur_schema, &excl);
        proof {
            assert(exprs_view(pass@) == spec_select_except(
                schema_of(cur_m),
                seq![name_of(sufu[0])],
            ));
        }
        proof {
            lemma_exprs_view(pass@);
            if success_h {
                let uv = expr_view(udf_stages@[t as int]);
                assert(spec_alias_chain_is_udf(uv));
                assert forall|a: int| 0 <= a < exprs_view(pass@).len() implies (
                #[trigger] exprs_view(pass@)[a]) is Column by {
                    assert(exprs_view(pass@)[a] == expr_view(pass@[a]));
                }
                assert forall|a: int| 0 <= a < exprs_view(pass@).len() implies req_col_set(
                    #[trigger] exprs_view(pass@)[a],
                ).subset_of(schema_of(current@).to_set()) by {
                    assert(exprs_view(pass@)[a] == expr_view(pass@[a]));
                    assert(req_col_set(expr_view(pass@[a])).subset_of(
                        strs_view(cur_schema@).to_set(),
                    ));
                }
                assert(req_col_set(uv).subset_of(schema_of(current@).to_set()));
                assert(distinct_names(names_of(exprs_view(pass@)) + seq![name_of(uv)])) by {
                    let all = names_of(exprs_view(pass@)) + seq![name_of(uv)];
                    assert forall|a: int, b: int| 0 <= a < b < all.len() implies all[a]
                        != all[b] by {
                        assert(exprs_view(pass@)[a] == expr_view(pass@[a]));
                        if b < names_of(exprs_view(pass@)).len() {
                            assert(exprs_view(pass@)[b] == expr_view(pass@[b]));
                            assert(distinct_names(names_of(exprs_view(pass@))));
                        } else {
                            assert(all[b] == name_of(uv));
                            assert(all[a] == name_of(expr_view(pass@[a])));
                            assert(!strs_view(excl@).contains(name_of(expr_view(pass@[a]))));
                            assert(strs_view(excl@)[0] == name_of(uv));
                        }
                    }
                }
                assert(udf_project_ok(current@, uv, exprs_view(pass@)));
            }
        }
        current = match Plan::new_udf_project(current, u, pass) {
            Ok(p) => p,
            Err(er) => {
                proof {
                    if success_h {
                        assert(false);
                    }
                }
                return Err(er);
            },
        };
        proof {
            assert(udf_project_ok(cur_m, sufu[0], exprs_view(pass@)));
            assert(current@ == (PlanModel::UdfProject {
                input: Box::new(cur_m),
                udf: sufu[0],
                passthrough: spec_select_except(schema_of(cur_m), seq![name_of(sufu[0])]),
            }));
            assert(fold_udf_stages(cur_m, sufu) == fold_udf_stages(
                current@,
                sufu.drop_first(),
            ));
            // The constructor accepted the stage, so its alias chain roots at
            // a UDF; a truncated stage with that shape has leaf arguments.
            assert(spec_alias_chain_is_udf(expr_view(udf_stages@[t as int])));
            assert(spec_udf_args_simple(expr_view(udf_stages@[t as int])));
            if plan_stages_simple(input@) {
                assert(plan_stages_simple(current@));
            }
            if success_h {
                let uv = expr_view(udf_stages@[t as int]);
                assert(schema_of(current@) == names_of(exprs_view(pass@)) + seq![name_of(uv)]);
                assert(distinct_names(schema_of(current@)));
                assert forall|x: Seq<char>| old_schema.to_set().contains(x) implies schema_of(
                    current@,
                ).to_set().contains(x) by {
                    if x == name_of(uv) {
                        assert(schema_of(current@)[schema_of(current@).len() - 1] == x);
                        assert(schema_of(current@).contains(x));
                    } else {
                        assert(strs_view(cur_schema@).contains(x));
                        assert(!strs_view(excl@).contains(x)) by {
                            assert(strs_view(excl@)[0] == name_of(uv));
                            if strs_view(excl@).contains(x) {
                                let z = choose|z: int|
                                    0 <= z < strs_view(excl@).len() && strs_view(excl@)[z] == x;
                                assert(z == 0);
                            }
                        }
                        assert(names_of(exprs_view(pass@)).contains(x));
                        let a = choose|a: int|
                            0 <= a < names_of(exprs_view(pass@)).len() && names_of(
                                exprs_view(pass@),
                            )[a] == x;
                        assert(schema_of(current@)[a] == x);
                        assert(schema_of(current@).contains(x));
                    }
                }
                assert(schema_of(current@).to_set().contains(name_of(uv))) by {
                    assert(schema_of(current@)[schema_of(current@).len() - 1] == name_of(uv));
                    assert(schema_of(current@).contains(name_of(uv)));
                }
            }
        }
        t += 1;
    }

    // The final select restores the original output columns, by name, in
    // their original order.
    let ne = exprs.len();
    let mut final_exprs: Vec<Expr> = Vec::new();
    let mut b: usize = 0;
    while b < ne
        invariant
            ne == exprs.len(),
            b <= ne,
            final_exprs@.len() == b,
            forall|x: int| 0 <= x < b ==> #[trigger] expr_view(final_exprs@[x])
                == (ExprModel::Column { name: name_of(exprs_view(exprs@)[x]) }),
        decreases ne - b,
    {
        final_exprs.push(Expr::Column(exprs[b].name()));
        b += 1;
    }
    proof {
        lemma_exprs_view(final_exprs@);
        if success_h {
            assert(projection_ok(current@, exprs_view(final_exprs@))) by {
                assert forall|a: int, x: int|
                    0 <= a < x < names_of(exprs_view(final_exprs@)).len() implies names_of(
                    exprs_view(final_exprs@),
                )[a] != names_of(exprs_view(final_exprs@))[x] by {
                    assert(exprs_view(final_exprs@)[a] == expr_view(final_exprs@[a]));
                    assert(exprs_view(final_exprs@)[x] == expr_view(final_exprs@[x]));
                    assert(names_of(exprs_view(exprs@))[a] == name_of(exprs_view(exprs@)[a]));
                    assert(names_of(exprs_view(exprs@))[x] == name_of(exprs_view(exprs@)[x]));
                }
                assert forall|a: int| 0 <= a < exprs_view(final_exprs@).len() implies req_col_set(
                    #[trigger] exprs_view(final_exprs@)[a],
                ).subset_of(schema_of(current@).to_set()) by {
                    assert(exprs_view(final_exprs@)[a] == expr_view(final_exprs@[a]));
                    let nm = name_of(exprs_view(exprs@)[a]);
                    assert(req_cols(expr_view(final_exprs@[a])) == seq![nm]);
                    assert(name_of(expr_view(truncated@[a])) == nm);
                    assert(names_of(exprs_view(stateless_stages@)).to_set().union(
                        names_of(exprs_view(udf_stages@)).to_set(),
                    ).contains(nm));
                    if names_of(exprs_view(udf_stages@)).to_set().contains(nm) {
                        let bb = choose|bb: int|
                            0 <= bb < names_of(exprs_view(udf_stages@)).len() && names_of(
                                exprs_view(udf_stages@),
                            )[bb] == nm;
                        assert(names_of(exprs_view(udf_stages@))[bb] == name_of(
                            expr_view(udf_stages@[bb]),
                        ));
                        assert(schema_of(current@).to_set().contains(nm));
                    } else {
                        assert(names_of(exprs_view(stateless_stages@)).to_set().contains(nm));
                        assert(schema_of(current@).to_set().contains(nm));
                    }
                    assert forall|x: Seq<char>| req_col_set(
                        expr_view(final_exprs@[a]),
                    ).contains(x) implies schema_of(current@).to_set().contains(x) by {
                        assert(x == nm);
                    }
                }
            }
        }
    }
    let ghost current_snap = current@;
    let r = Plan::new_projection(current, final_exprs);
    proof {
        if r is Ok {
            let out = r->Ok_0;
            lemma_exprs_view(final_exprs@);
            assert(schema_of(out@) == names_of(exprs_view(final_exprs@)));
            assert(names_of(exprs_view(final_exprs@)) =~= names_of(exprs_view(exprs@))) by {
                assert forall|x: int|
                    0 <= x < exprs@.len() implies names_of(exprs_view(final_exprs@))[x] == names_of(
                    exprs_view(exprs@),
                )[x] by {
                    assert(exprs_view(final_exprs@)[x] == expr_view(final_exprs@[x]));
                }
            }
            assert(plan_fully_split(out@)) by {
                assert forall|x: int|
                    0 <= x < exprs_view(final_exprs@).len() implies !spec_has_udf_skip_lm(
                    #[trigger] exprs_view(final_exprs@)[x],
                ) by {
                    assert(exprs_view(final_exprs@)[x] == expr_view(final_exprs@[x]));
                }
            }
            assert(exprs_view(final_exprs@) =~= Seq::new(
                exprs_view(exprs@).len(),
                |i: int| ExprModel::Column { name: name_of(exprs_view(exprs@)[i]) },
            )) by {
                assert forall|x: int| 0 <= x < exprs@.len() implies exprs_view(final_exprs@)[x]
                    == (ExprModel::Column { name: name_of(exprs_view(exprs@)[x]) }) by {
                    assert(exprs_view(final_exprs@)[x] == expr_view(final_exprs@[x]));
                }
            }
            // The whole emitted plan matches the stage-chain relation over
            // the staged child.
            assert(uv.skip(nu as int) =~= Seq::<ExprModel>::empty());
            assert(fold_udf_stages(current_snap, uv.skip(nu as int)) == Ok::<PlanModel, ()>(
                current_snap,
            ));
            assert(fold_udf_stages(prem, uv) == Ok::<PlanModel, ()>(current_snap));
            assert(stage_chain(exprs_view(exprs@), tv, ncm, out@));
            let sp = spec_split(exprs_view(exprs@), depth as nat);
            assert(sp.0 == tv && sp.1 == rv);
            if all_cols_model {
                assert(ncm == input@);
                assert(stage_chain(exprs_view(exprs@), sp.0, input@, out@));
            } else {
                assert(schema_of(ncm) == names_of(rv));
                assert(plan_fully_split(ncm));
                assert(stage_chain(exprs_view(exprs@), sp.0, ncm, out@) && schema_of(ncm)
                    == names_of(sp.1) && plan_fully_split(ncm));
            }
        }
        if success_h {
            assert(r is Ok);
        }
    }
    r
}

/// Rewrites every projection of `plan`, bottom up, so that no projection of
/// the result computes a UDF outside `list_map` bodies: each such projection
/// becomes a chain of stateless projections and single-UDF projections with
/// the same output names in the same order. A plan that is already fully
/// split comes back unchanged, so the pass is idempotent. On a well-formed
/// plan whose projections never mix a UDF with `list_map` in one entry, the
/// pass always succeeds.
#[verifier::loop_isolation(false)]
pub fn rewrite_plan(plan: &Plan) -> (r: Result<Plan, RewriteError>)
    ensures
        r matches Ok(q) ==> plan_fully_split(q@),
        r matches Ok(q) ==> (plan_wf(plan@) ==> plan_wf(q@)),
        r matches Ok(q) ==> schema_of(q@) == schema_of(plan@),
        (plan_fully_split(plan@) && plan_wf(plan@)) ==> (r matches Ok(q) && q@ == plan@),
        (plan_wf(plan@) && plan_split_ready(plan@)) ==> r is Ok,
        r matches Ok(q) ==> (plan_stages_simple(plan@) ==> plan_stages_simple(q@)),
        r matches Ok(q) ==> (plan@ is Source ==> q@ == plan@),
        r matches Ok(q) ==> (plan@ matches PlanModel::Other { op, children, schema } ==> (q@
            matches PlanModel::Other { op: op2, children: c2, schema: schema2 } && op2 == op
            && schema2 == schema && c2.len() == children.len() && forall|i: int|
            0 <= i < children.len() ==> schema_of(#[trigger] c2[i]) == schema_of(children[i]))),
        r matches Ok(q) ==> (plan@ matches PlanModel::UdfProject { input, udf, passthrough } ==> (
        q@ matches PlanModel::UdfProject { input: input2, udf: udf2, passthrough: pass2 } && udf2
            == udf && pass2 == passthrough && schema_of(*input2) == schema_of(*input)
            && plan_fully_split(*input2))),
    decreases plan,
{
    match plan {
        Plan::Source(_) => {
            let c = plan.clone();
            proof {
                assert(c@ == plan@);
                assert(plan_stages_simple(plan@) ==> plan_stages_simple(c@));
            }
            Ok(c)
        },
        Plan::Other(op, children, schema) => {
            proof {
                lemma_plans_view(children@);
                lemma_all_plans_fully_split(plans_view(children@));
                lemma_all_plans_wf(plans_view(children@));
                lemma_all_plans_split_ready(plans_view(children@));
                lemma_all_plans_stages_simple(plans_view(children@));
            }
            let n = children.len();
            let mut new_children: Vec<Plan> = Vec::new();
            let mut i: usize = 0;
            while i < n
                invariant
                    n == children.len(),
                    i <= n,
                    new_children@.len() == i,
                    forall|j: int| 0 <= j < n ==> plans_view(children@)[j] == plan_view(
                        children@[j],
                    ),
                    plans_view(children@).len() == n,
                    forall|j: int|
                        0 <= j < i ==> plan_fully_split(#[trigger] plan_view(new_children@[j])),
                    plan_wf(plan@) ==> forall|j: int|
                        0 <= j < i ==> plan_wf(#[trigger] plan_view(new_children@[j])),
                    plan_stages_simple(plan@) ==> forall|j: int|
                        0 <= j < i ==> plan_stages_simple(#[trigger] plan_view(new_children@[j])),
                    forall|j: int|
                        0 <= j < i ==> schema_of(#[trigger] plan_view(new_children@[j]))
                            == schema_of(plan_view(children@[j])),
                    (plan_fully_split(plan@) && plan_wf(plan@)) ==> forall|j: int|
                        0 <= j < i ==> #[trigger] plan_view(new_children@[j]) == plan_view(
                            children@[j],
                        ),
                decreases n - i,
            {
                proof {
                    if plan_wf(plan@) {
                        assert(plan_wf(plans_view(children@)[i as int]));
                    }
                    if plan_fully_split(plan@) {
                        assert(plan_fully_split(plans_view(children@)[i as int]));
                    }
                    if plan_stages_simple(plan@) {
                        assert(plan_stages_simple(plans_view(children@)[i as int]));
                    }
                }
                proof {
                    assert(decreases_to!(*plan => children@[i as int]));
                }
                let c = match rewrite_plan(&children[i]) {
                    Ok(c) => c,
                    Err(er) => {
                        proof {
                            if plan_fully_split(plan@) && plan_wf(plan@) {
                                assert(false);
                            }
                        }
                        return Err(er);
                    },
                };
                new_children.push(c);
                i += 1;
            }
            let out = Plan::Other(*op, new_children, clone_strings(schema));
            proof {
                let ghost oc = match out@ {
                    PlanModel::Other { children: c, .. } => c,
                    _ => Seq::empty(),
                };
                lemma_plans_view(new_children@);
                assert forall|j: int| 0 <= j < children@.len() implies schema_of(
                    #[trigger] plans_view(new_children@)[j],
                ) == schema_of(plans_view(children@)[j]) by {
                    assert(plans_view(new_children@)[j] == plan_view(new_children@[j]));
                }
                lemma_all_plans_fully_split(plans_view(new_children@));
                lemma_all_plans_wf(plans_view(new_children@));
                lemma_all_plans_stages_simple(plans_view(new_children@));
                assert(plan_fully_split(out@));
                if plan_wf(plan@) {
                    assert(plan_wf(out@));
                }
                if plan_stages_simple(plan@) {
                    assert forall|j: int| 0 <= j < new_children@.len() implies plan_stages_simple(
                        #[trigger] plans_view(new_children@)[j],
                    ) by {
                        assert(plans_view(new_children@)[j] == plan_view(new_children@[j]));
                    }
                    assert(all_plans_stages_simple(plans_view(new_children@)));
                    assert(plan_stages_simple(out@));
                }
                if plan_fully_split(plan@) && plan_wf(plan@) {
                    assert(plans_view(new_children@) =~= plans_view(children@));
                    assert(out@ == plan@);
                }
                assert(plan_stages_simple(plan@) ==> plan_stages_simple(out@));
            }
            Ok(out)
        },
        Plan::UdfProject(input, udf, passthrough) => {
            let ni = match rewrite_plan(input) {
                Ok(p) => p,
                Err(er) => {
                    proof {
                        if plan_fully_split(plan@) && plan_wf(plan@) {
                            assert(false);
                        }
                        if plan_wf(plan@) && plan_split_ready(plan@) {
                            assert(false);
                        }
                    }
                    return Err(er);
                },
            };
            let ghost niv = plan_view(ni);
            let out = Plan::UdfProject(Box::new(ni), udf.clone(), clone_exprs(passthrough));
            proof {
                assert(plan_fully_split(out@));
                if plan_stages_simple(plan@) {
                    assert(plan_stages_simple(plan_view(**input)));
                    assert(plan_stages_simple(niv));
                    assert(spec_udf_args_simple(udf@));
                    assert(out@ matches PlanModel::UdfProject { input: i2, udf: u2, .. } && *i2
                        == niv && u2 == udf@);
                    assert(plan_stages_simple(out@));
                }
                if plan_wf(plan@) {
                    assert(udf_project_ok(plan_view(**input), udf@, exprs_view(passthrough@)));
                    assert(plan_wf(out@));
                }
                assert(schema_of(out@) == schema_of(plan@));
                if plan_fully_split(plan@) && plan_wf(plan@) {
                    assert(out@ == plan@);
                }
                assert(plan_stages_simple(plan@) ==> plan_stages_simple(out@));
            }
            Ok(out)
        },
        Plan::Projection(input, exprs) => {
            proof {
                lemma_exprs_view(exprs@);
                lemma_any_has_udf_skip_lm(exprs_view(exprs@));
            }
            let ni = match rewrite_plan(input) {
                Ok(p) => p,
                Err(er) => {
                    proof {
                        if plan_fully_split(plan@) && plan_wf(plan@) {
                            assert(false);
                        }
                        if plan_wf(plan@) && plan_split_ready(plan@) {
                            assert(false);
                        }
                    }
                    return Err(er);
                },
            };
            if !Expr::args_have_udf_skip_lm(exprs) {
                // No UDF outside `list_map` bodies: the projection stands
                // unchanged on the rewritten input.
                let r = Plan::new_projection(ni, clone_exprs(exprs));
                proof {
                    if r is Ok {
                        let out = r->Ok_0;
                        assert(plan_fully_split(out@));
                        if plan_wf(plan@) {
                            assert(projection_ok(plan_view(**input), exprs_view(exprs@)));
                            assert(plan_wf(out@));
                        }
                        assert(schema_of(out@) == names_of(exprs_view(exprs@)));
                    }
                    if plan_fully_split(plan@) && plan_wf(plan@) {
                        assert(projection_ok(plan_view(**input), exprs_view(exprs@)));
                        assert(r is Ok);
                        assert(r->Ok_0@ == plan@);
                    }
                    if plan_wf(plan@) && plan_split_ready(plan@) {
                        assert(projection_ok(plan_view(**input), exprs_view(exprs@)));
                        assert(r is Ok);
                    }
                    if r is Ok && plan_stages_simple(plan@) {
                        assert(plan_stages_simple(plan_view(**input)));
                        assert(plan_stages_simple(ni@));
                        assert(plan_stages_simple(r->Ok_0@));
                    }
                }
                return r;
            }
            let aliased = alias_entries(exprs);
            let r = optimize_projection(&ni, &aliased, 0);
            proof {
                if plan_wf(plan@) && plan_split_ready(plan@) {
                    // All hypotheses of the stage builder's success clause
                    // hold for the aliased entries over the rewritten input.
                    lemma_exprs_view(aliased@);
                    assert(exprs_view(aliased@).len() == exprs@.len());
                    assert(exprs_view(exprs@).len() == exprs@.len());
                    assert(plan_wf(plan_view(ni)));
                    assert(projection_ok(plan_view(**input), exprs_view(exprs@)));
                    assert(projection_ok(plan_view(ni), exprs_view(aliased@))) by {
                        assert forall|a: int, b: int|
                            0 <= a < b < names_of(exprs_view(aliased@)).len() implies names_of(
                            exprs_view(aliased@),
                        )[a] != names_of(exprs_view(aliased@))[b] by {
                            assert(names_of(exprs_view(aliased@))[a] == name_of(
                                exprs_view(aliased@)[a],
                            ));
                            assert(names_of(exprs_view(aliased@))[b] == name_of(
                                exprs_view(aliased@)[b],
                            ));
                            assert(names_of(exprs_view(exprs@))[a] == name_of(
                                exprs_view(exprs@)[a],
                            ));
                            assert(names_of(exprs_view(exprs@))[b] == name_of(
                                exprs_view(exprs@)[b],
                            ));
                        }
                        assert forall|a: int|
                            0 <= a < exprs_view(aliased@).len() implies req_col_set(
                            #[trigger] exprs_view(aliased@)[a],
                        ).subset_of(schema_of(plan_view(ni)).to_set()) by {
                            assert(req_col_set(exprs_view(aliased@)[a]) == req_col_set(
                                exprs_view(exprs@)[a],
                            ));
                            assert(schema_of(plan_view(ni)) == schema_of(plan_view(**input)));
                        }
                    }
                    assert(entries_lm_ok(exprs_view(aliased@))) by {
                        assert forall|a: int|
                            0 <= a < exprs_view(aliased@).len() implies entry_lm_ok(
                            #[trigger] exprs_view(aliased@)[a],
                        ) by {
                            assert(entry_lm_ok(exprs_view(exprs@)[a]));
                        }
                    }
                    assert(0 + max_height(exprs_view(aliased@)) <= usize::MAX) by {
                        assert(max_height(exprs_view(exprs@)) + 1 <= usize::MAX);
                    }
                    assert(r is Ok);
                }
                if r is Ok {
                    let out = r->Ok_0;
                    if plan_stages_simple(plan@) {
                        assert(plan_stages_simple(plan_view(**input)));
                        assert(plan_stages_simple(ni@));
                        assert(plan_stages_simple(out@));
                    }
                    assert(schema_of(out@) == names_of(exprs_view(aliased@)));
                    assert(names_of(exprs_view(aliased@)) =~= names_of(exprs_view(exprs@))) by {
                        lemma_exprs_view(aliased@);
                        assert forall|x: int|
                            0 <= x < exprs@.len() implies names_of(exprs_view(aliased@))[x]
                            == names_of(exprs_view(exprs@))[x] by {}
                    }
                    if plan_wf(plan@) {
                        assert(plan_wf(out@));
                    }
                }
                assert(!plan_fully_split(plan@)) by {
                    assert(any_has_udf_skip_lm(exprs_view(exprs@)));
                }
            }
            r
        },
    }
}

/// The splitting pass as an optimizer rule.
#[derive(Debug, Default)]
pub struct SplitUDFs {}

impl SplitUDFs {
    /// Creates the rule; it carries no state.
    pub fn new() -> (r: Self) {
        SplitUDFs {  }
    }

    /// Applies the pass to a plan. Same contract as `rewrite_plan`.
    pub fn try_optimize(&self, plan: &Plan) -> (r: Result<Plan, RewriteError>)
        ensures
            r matches Ok(q) ==> plan_fully_split(q@),
            r matches Ok(q) ==> (plan_wf(plan@) ==> plan_wf(q@)),
            r matches Ok(q) ==> schema_of(q@) == schema_of(plan@),
            (plan_fully_split(plan@) && plan_wf(plan@)) ==> (r matches Ok(q) && q@ == plan@),
            (plan_wf(plan@) && plan_split_ready(plan@)) ==> r is Ok,
            r matches Ok(q) ==> (plan_stages_simple(plan@) ==> plan_stages_simple(q@)),
    {
        rewrite_plan(plan)
    }
}

} // verus!
