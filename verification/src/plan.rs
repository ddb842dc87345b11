//! Logical plan nodes, their schemas, and validated constructors.
//!
//! Only two node kinds carry column-valued computation: `Projection` and
//! `UdfProject`. Every other node is opaque to the splitter and is modeled by
//! an operator id, its children, and its own schema.

use vstd::prelude::*;

use crate::expr::{
    clone_exprs, expr_view, exprs_view, lemma_exprs_view, name_of, names_of, req_col_set, req_cols,
    spec_alias_chain_is_udf, strs_view, Expr, ExprModel,
};

verus! {

/// Mathematical model of a plan tree.
pub enum PlanModel {
    /// A leaf producing the named columns, in order.
    Source { schema: Seq<Seq<char>> },
    /// Computes one named output column per expression from its input rows.
    Projection { input: Box<PlanModel>, exprs: Seq<ExprModel> },
    /// A projection specialized to one UDF expression: its output is the
    /// passthrough columns followed by the UDF's column.
    UdfProject { input: Box<PlanModel>, udf: ExprModel, passthrough: Seq<ExprModel> },
    /// Any other plan node: opaque, with its own schema.
    Other { op: int, children: Seq<PlanModel>, schema: Seq<Seq<char>> },
}

/// A logical plan tree.
#[derive(Debug, PartialEq, Eq)]
pub enum Plan {
    Source(Vec<String>),
    Projection(Box<Plan>, Vec<Expr>),
    UdfProject(Box<Plan>, Expr, Vec<Expr>),
    Other(u64, Vec<Plan>, Vec<String>),
}

/// The model of a plan tree.
pub open spec fn plan_view(p: Plan) -> PlanModel
    decreases p,
{
    match p {
        Plan::Source(schema) => PlanModel::Source { schema: strs_view(schema@) },
        Plan::Projection(input, exprs) => PlanModel::Projection {
            input: Box::new(plan_view(*input)),
            exprs: exprs_view(exprs@),
        },
        Plan::UdfProject(input, udf, passthrough) => PlanModel::UdfProject {
            input: Box::new(plan_view(*input)),
            udf: udf@,
            passthrough: exprs_view(passthrough@),
        },
        Plan::Other(op, children, schema) => PlanModel::Other {
            op: op as int,
            children: plans_view(children@),
            schema: strs_view(schema@),
        },
    }
}

/// The models of a sequence of plan trees, in order.
pub open spec fn plans_view(children: Seq<Plan>) -> Seq<PlanModel>
    decreases children,
{
    if children.len() == 0 {
        Seq::empty()
    } else {
        seq![plan_view(children[0])] + plans_view(children.drop_first())
    }
}

/// `plans_view` maps `plan_view` over the sequence, element by element.
pub proof fn lemma_plans_view(children: Seq<Plan>)
    ensures
        #[trigger] plans_view(children).len() == children.len(),
        forall|i: int| 0 <= i < children.len() ==> plans_view(children)[i] == plan_view(
            children[i],
        ),
    decreases children,
{
    if children.len() > 0 {
        lemma_plans_view(children.drop_first());
        assert forall|i: int| 0 <= i < children.len() implies plans_view(children)[i] == plan_view(
            children[i],
        ) by {
            if i > 0 {
                assert(children.drop_first()[i - 1] == children[i]);
            }
        }
    }
}

impl View for Plan {
    type V = PlanModel;

    open spec fn view(&self) -> PlanModel {
        plan_view(*self)
    }
}

/// The ordered column names a plan node produces.
pub open spec fn schema_of(p: PlanModel) -> Seq<Seq<char>> {
    match p {
        PlanModel::Source { schema } => schema,
        PlanModel::Projection { exprs, .. } => names_of(exprs),
        PlanModel::UdfProject { udf, passthrough, .. } => names_of(passthrough) + seq![
            name_of(udf),
        ],
        PlanModel::Other { schema, .. } => schema,
    }
}

/// True iff no two names of `s` are equal.
pub open spec fn distinct_names(s: Seq<Seq<char>>) -> bool {
    forall|i: int, j: int| 0 <= i < j < s.len() ==> s[i] != s[j]
}

/// The columns a projection's expressions may reference and the names they
/// may produce, against a given input schema: every referenced column is
/// produced by the input, and output names are pairwise distinct.
pub open spec fn projection_ok(input: PlanModel, exprs: Seq<ExprModel>) -> bool {
    &&& distinct_names(names_of(exprs))
    &&& forall|i: int|
        0 <= i < exprs.len() ==> req_col_set(#[trigger] exprs[i]).subset_of(
            schema_of(input).to_set(),
        )
}

/// What a single-UDF projection requires of its parts: the expression's alias
/// chain roots at a UDF, every passthrough is a bare column reference, all
/// referenced columns come from the input, and the output names are pairwise
/// distinct.
pub open spec fn udf_project_ok(input: PlanModel, udf: ExprModel, passthrough: Seq<ExprModel>) -> bool {
    &&& spec_alias_chain_is_udf(udf)
    &&& forall|i: int| 0 <= i < passthrough.len() ==> (#[trigger] passthrough[i]) is Column
    &&& req_col_set(udf).subset_of(schema_of(input).to_set())
    &&& forall|i: int|
        0 <= i < passthrough.len() ==> req_col_set(#[trigger] passthrough[i]).subset_of(
            schema_of(input).to_set(),
        )
    &&& distinct_names(names_of(passthrough) + seq![name_of(udf)])
}

/// Structural validity of a plan tree: every node's expressions resolve
/// against its input's schema, output names are distinct, and every
/// single-UDF projection is rooted at one (possibly aliased) UDF with bare
/// column passthroughs.
pub open spec fn plan_wf(p: PlanModel) -> bool
    decreases p,
{
    match p {
        PlanModel::Source { schema } => distinct_names(schema),
        PlanModel::Projection { input, exprs } => plan_wf(*input) && projection_ok(*input, exprs),
        PlanModel::UdfProject { input, udf, passthrough } => plan_wf(*input) && udf_project_ok(
            *input,
            udf,
            passthrough,
        ),
        PlanModel::Other { children, schema, .. } => distinct_names(schema) && all_plans_wf(
            children,
        ),
    }
}

/// True iff every plan of `children` is well formed.
pub open spec fn all_plans_wf(children: Seq<PlanModel>) -> bool
    decreases children,
{
    if children.len() == 0 {
        true
    } else {
        plan_wf(children[0]) && all_plans_wf(children.drop_first())
    }
}

/// `all_plans_wf` holds iff every element is well formed.
pub proof fn lemma_all_plans_wf(children: Seq<PlanModel>)
    ensures
        #[trigger] all_plans_wf(children) <==> forall|i: int|
            0 <= i < children.len() ==> plan_wf(#[trigger] children[i]),
    decreases children,
{
    if children.len() > 0 {
        lemma_all_plans_wf(children.drop_first());
        if all_plans_wf(children) {
            assert forall|i: int| 0 <= i < children.len() implies plan_wf(children[i]) by {
                if i > 0 {
                    assert(children.drop_first()[i - 1] == children[i]);
                }
            }
        }
        if forall|i: int| 0 <= i < children.len() ==> plan_wf(#[trigger] children[i]) {
            assert(plan_wf(children[0]));
            assert forall|j: int| 0 <= j < children.drop_first().len() implies plan_wf(
                #[trigger] children.drop_first()[j],
            ) by {
                assert(children.drop_first()[j] == children[j + 1]);
            }
        }
    }
}

/// A well-formed plan produces pairwise distinct column names.
pub proof fn lemma_wf_schema_distinct(p: PlanModel)
    requires
        plan_wf(p),
    ensures
        distinct_names(schema_of(p)),
{
    match p {
        PlanModel::Source { .. } => {},
        PlanModel::Projection { .. } => {},
        PlanModel::UdfProject { .. } => {},
        PlanModel::Other { .. } => {},
    }
}

/// The error a rewrite reports. `MalformedPlan` means a sub-plan could not be
/// constructed because expression-to-schema resolution rejected it: a column
/// reference is not produced by the input, or output names collide.
#[derive(Debug, Clone, Copy, PartialEq, Eq)]
pub enum RewriteError {
    MalformedPlan,
}

/// True iff `name` occurs among `names`.
pub fn contains_name(names: &Vec<String>, name: &String) -> (r: bool)
    ensures
        r == strs_view(names@).contains(name@),
{
    let n = names.len();
    let mut i: usize = 0;
    while i < n
        invariant
            n == names.len(),
            i <= n,
            forall|j: int| 0 <= j < i ==> strs_view(names@)[j] != name@,
        decreases n - i,
    {
        if names[i] == *name {
            proof {
                assert(strs_view(names@)[i as int] == name@);
            }
            return true;
        }
        i += 1;
    }
    proof {
        if strs_view(names@).contains(name@) {
            let j = choose|j: int| 0 <= j < names@.len() && strs_view(names@)[j] == name@;
            assert(false);
        }
    }
    false
}

/// True iff no two strings of `names` are equal.
pub fn names_distinct(names: &Vec<String>) -> (r: bool)
    ensures
        r == distinct_names(strs_view(names@)),
{
    let n = names.len();
    let mut i: usize = 0;
    while i < n
        invariant
            n == names.len(),
            i <= n,
            forall|a: int, b: int| 0 <= a < b < i ==> strs_view(names@)[a] != strs_view(names@)[b],
            forall|a: int, b: int|
                0 <= a < i && a < b < n ==> strs_view(names@)[a] != strs_view(names@)[b],
        decreases n - i,
    {
        let mut j: usize = i + 1;
        while j < n
            invariant
                n == names.len(),
                i < n,
                i + 1 <= j <= n,
                forall|b: int| i < b < j ==> strs_view(names@)[i as int] != strs_view(names@)[b],
            decreases n - j,
        {
            let same = names[i] == names[j];
            if same {
                proof {
                    assert(strs_view(names@)[i as int] == strs_view(names@)[j as int]);
                }
                return false;
            }
            j += 1;
        }
        i += 1;
    }
    true
}

impl Plan {
    /// The ordered column names this plan produces.
    pub fn schema(&self) -> (r: Vec<String>)
        ensures
            strs_view(r@) == schema_of(self@),
    {
        match self {
            Plan::Source(schema) => {
                let r = clone_strings(schema);
                proof {
                    assert(strs_view(r@) =~= schema_of(self@));
                }
                r
            },
            Plan::Projection(_, exprs) => {
                let r = names_of_exprs(exprs);
                r
            },
            Plan::UdfProject(_, udf, passthrough) => {
                let mut r = names_of_exprs(passthrough);
                let ghost before = strs_view(r@);
                r.push(udf.name());
                proof {
                    assert(strs_view(r@) =~= before + seq![name_of(udf@)]);
                }
                r
            },
            Plan::Other(_, _, schema) => {
                let r = clone_strings(schema);
                proof {
                    assert(strs_view(r@) =~= schema_of(self@));
                }
                r
            },
        }
    }
}

/// True iff every string of `req` occurs among `schema`.
pub fn all_contained(req: &Vec<String>, schema: &Vec<String>) -> (r: bool)
    ensures
        r <==> forall|k: int|
            0 <= k < req@.len() ==> strs_view(schema@).contains(#[trigger] strs_view(req@)[k]),
{
    let m = req.len();
    let mut k: usize = 0;
    while k < m
        invariant
            m == req.len(),
            k <= m,
            forall|j: int| 0 <= j < k ==> strs_view(schema@).contains(#[trigger] strs_view(req@)[j]),
        decreases m - k,
    {
        if !contains_name(schema, &req[k]) {
            proof {
                assert(!strs_view(schema@).contains(strs_view(req@)[k as int]));
            }
            return false;
        }
        k += 1;
    }
    true
}

impl Plan {
    /// Builds a `Projection` after checking that every referenced column is
    /// produced by `input` and that the output names are pairwise distinct;
    /// reports `MalformedPlan` otherwise, exactly in that case.
    pub fn new_projection(input: Plan, exprs: Vec<Expr>) -> (r: Result<Plan, RewriteError>)
        ensures
            r is Ok <==> projection_ok(input@, exprs_view(exprs@)),
            r matches Ok(p) ==> p@ == (PlanModel::Projection {
                input: Box::new(input@),
                exprs: exprs_view(exprs@),
            }),
            r is Err ==> r == Err::<Plan, RewriteError>(RewriteError::MalformedPlan),
            r matches Ok(p) ==> (plan_wf(input@) ==> plan_wf(p@)),
    {
        let schema = input.schema();
        let nm = names_of_exprs(&exprs);
        if !names_distinct(&nm) {
            return Err(RewriteError::MalformedPlan);
        }
        proof {
            lemma_exprs_view(exprs@);
        }
        let n = exprs.len();
        let mut i: usize = 0;
        while i < n
            invariant
                n == exprs.len(),
                i <= n,
                strs_view(schema@) == schema_of(input@),
                forall|j: int| 0 <= j < n ==> exprs_view(exprs@)[j] == expr_view(exprs@[j]),
                exprs_view(exprs@).len() == n,
                forall|j: int|
                    0 <= j < i ==> req_col_set(#[trigger] exprs_view(exprs@)[j]).subset_of(
                        schema_of(input@).to_set(),
                    ),
            decreases n - i,
        {
            let req = exprs[i].required_columns();
            if !all_contained(&req, &schema) {
                proof {
                    let k = choose|k: int|
                        0 <= k < req@.len() && !strs_view(schema@).contains(strs_view(req@)[k]);
                    assert(req_col_set(exprs_view(exprs@)[i as int]).contains(strs_view(req@)[k]));
                    assert(!schema_of(input@).to_set().contains(strs_view(req@)[k]));
                }
                return Err(RewriteError::MalformedPlan);
            }
            proof {
                assert forall|x: Seq<char>| req_col_set(exprs_view(exprs@)[i as int]).contains(
                    x,
                ) implies schema_of(input@).to_set().contains(x) by {
                    let k = choose|k: int| 0 <= k < req_cols(expr_view(exprs@[i as int])).len()
                        && req_cols(expr_view(exprs@[i as int]))[k] == x;
                    assert(strs_view(req@)[k] == x);
                    assert(strs_view(schema@).contains(x));
                }
            }
            i += 1;
        }
        Ok(Plan::Projection(Box::new(input), exprs))
    }

    /// Builds a `UdfProject` after checking that the expression's alias chain
    /// roots at a UDF, that every passthrough is a bare column reference, that
    /// every referenced column is produced by `input`, and that the output
    /// names are pairwise distinct; reports `MalformedPlan` otherwise,
    /// exactly in that case.
    pub fn new_udf_project(input: Plan, udf: Expr, passthrough: Vec<Expr>) -> (r: Result<
        Plan,
        RewriteError,
    >)
        ensures
            r is Ok <==> udf_project_ok(input@, udf@, exprs_view(passthrough@)),
            r matches Ok(p) ==> p@ == (PlanModel::UdfProject {
                input: Box::new(input@),
                udf: udf@,
                passthrough: exprs_view(passthrough@),
            }),
            r is Err ==> r == Err::<Plan, RewriteError>(RewriteError::MalformedPlan),
            r matches Ok(p) ==> (plan_wf(input@) ==> plan_wf(p@)),
    {
        proof {
            lemma_exprs_view(passthrough@);
        }
        if !udf.alias_chain_is_udf() {
            return Err(RewriteError::MalformedPlan);
        }
        let schema = input.schema();
        let n = passthrough.len();
        let mut i: usize = 0;
        while i < n
            invariant
                n == passthrough.len(),
                i <= n,
                strs_view(schema@) == schema_of(input@),
                forall|j: int| 0 <= j < n ==> exprs_view(passthrough@)[j] == expr_view(
                    passthrough@[j],
                ),
                exprs_view(passthrough@).len() == n,
                forall|j: int| 0 <= j < i ==> (#[trigger] exprs_view(passthrough@)[j]) is Column,
                forall|j: int|
                    0 <= j < i ==> req_col_set(#[trigger] exprs_view(passthrough@)[j]).subset_of(
                        schema_of(input@).to_set(),
                    ),
            decreases n - i,
        {
            let is_col = matches!(&passthrough[i], Expr::Column(_));
            if !is_col {
                proof {
                    assert(!(expr_view(passthrough@[i as int]) is Column));
                    assert(!((exprs_view(passthrough@)[i as int]) is Column));
                    assert(!udf_project_ok(input@, udf@, exprs_view(passthrough@)));
                }
                return Err(RewriteError::MalformedPlan);
            }
            let req = passthrough[i].required_columns();
            if !all_contained(&req, &schema) {
                proof {
                    let k = choose|k: int|
                        0 <= k < req@.len() && !strs_view(schema@).contains(strs_view(req@)[k]);
                    assert(req_col_set(exprs_view(passthrough@)[i as int]).contains(
                        strs_view(req@)[k],
                    ));
                    assert(!schema_of(input@).to_set().contains(strs_view(req@)[k]));
                }
                return Err(RewriteError::MalformedPlan);
            }
            proof {
                assert forall|x: Seq<char>| req_col_set(exprs_view(passthrough@)[i as int]).contains(
                    x,
                ) implies schema_of(input@).to_set().contains(x) by {
                    let k = choose|k: int|
                        0 <= k < req_cols(expr_view(passthrough@[i as int])).len() && req_cols(
                            expr_view(passthrough@[i as int]),
                        )[k] == x;
                    assert(strs_view(req@)[k] == x);
                    assert(strs_view(schema@).contains(x));
                }
            }
            i += 1;
        }
        let req = udf.required_columns();
        if !all_contained(&req, &schema) {
            proof {
                let k = choose|k: int|
                    0 <= k < req@.len() && !strs_view(schema@).contains(strs_view(req@)[k]);
                assert(req_col_set(udf@).contains(strs_view(req@)[k]));
                assert(!schema_of(input@).to_set().contains(strs_view(req@)[k]));
            }
            return Err(RewriteError::MalformedPlan);
        }
        proof {
            assert forall|x: Seq<char>| req_col_set(udf@).contains(x) implies schema_of(
                input@,
            ).to_set().contains(x) by {
                let k = choose|k: int| 0 <= k < req_cols(udf@).len() && req_cols(udf@)[k] == x;
                assert(strs_view(req@)[k] == x);
                assert(strs_view(schema@).contains(x));
            }
        }
        let mut nm = names_of_exprs(&passthrough);
        let ghost before = strs_view(nm@);
        nm.push(udf.name());
        proof {
            assert(strs_view(nm@) =~= before + seq![name_of(udf@)]);
        }
        if !names_distinct(&nm) {
            return Err(RewriteError::MalformedPlan);
        }
        Ok(Plan::UdfProject(Box::new(input), udf, passthrough))
    }
}

impl Clone for Plan {
    /// A structural copy: the model of the copy equals the model of the
    /// original.
    fn clone(&self) -> (r: Self)
        ensures
            r@ == self@,
        decreases self,
    {
        match self {
            Plan::Source(schema) => Plan::Source(clone_strings(schema)),
            Plan::Projection(input, exprs) => {
                let r = Plan::Projection(Box::new((**input).clone()), clone_exprs(exprs));
                proof {
                    assert(r@ == self@);
                }
                r
            },
            Plan::UdfProject(input, udf, passthrough) => {
                let r = Plan::UdfProject(
                    Box::new((**input).clone()),
                    udf.clone(),
                    clone_exprs(passthrough),
                );
                proof {
                    assert(r@ == self@);
                }
                r
            },
            Plan::Other(op, children, schema) => {
                let r = Plan::Other(*op, clone_plans(children), clone_strings(schema));
                proof {
                    assert(r@ == self@);
                }
                r
            },
        }
    }
}

/// A structural copy of a vector of plans, element by element.
pub fn clone_plans(children: &Vec<Plan>) -> (r: Vec<Plan>)
    ensures
        plans_view(r@) == plans_view(children@),
        r@.len() == children@.len(),
    decreases children,
{
    proof {
        lemma_plans_view(children@);
    }
    let n = children.len();
    let mut out: Vec<Plan> = Vec::new();
    let mut i: usize = 0;
    while i < n
        invariant
            n == children.len(),
            i <= n,
            out@.len() == i,
            forall|j: int| 0 <= j < i ==> plan_view(out@[j]) == plan_view(children@[j]),
        decreases n - i,
    {
        out.push(children[i].clone());
        i += 1;
    }
    proof {
        lemma_plans_view(out@);
        assert(plans_view(out@) =~= plans_view(children@));
    }
    out
}

/// A copy of a vector of strings whose characters equal the original's.
pub fn clone_strings(names: &Vec<String>) -> (r: Vec<String>)
    ensures
        strs_view(r@) == strs_view(names@),
        r@.len() == names@.len(),
{
    let n = names.len();
    let mut out: Vec<String> = Vec::new();
    let mut i: usize = 0;
    while i < n
        invariant
            n == names.len(),
            i <= n,
            out@.len() == i,
            forall|j: int| 0 <= j < i ==> out@[j]@ == names@[j]@,
        decreases n - i,
    {
        out.push(names[i].clone());
        i += 1;
    }
    proof {
        assert(strs_view(out@) =~= strs_view(names@));
    }
    out
}

/// The derived names of a vector of expressions, in order.
pub fn names_of_exprs(exprs: &Vec<Expr>) -> (r: Vec<String>)
    ensures
        strs_view(r@) == names_of(exprs_view(exprs@)),
        r@.len() == exprs@.len(),
{
    proof {
        lemma_exprs_view(exprs@);
    }
    let n = exprs.len();
    let mut out: Vec<String> = Vec::new();
    let mut i: usize = 0;
    while i < n
        invariant
            n == exprs.len(),
            i <= n,
            out@.len() == i,
            forall|j: int| 0 <= j < i ==> out@[j]@ == name_of(exprs_view(exprs@)[j]),
            forall|k: int| 0 <= k < n ==> exprs_view(exprs@)[k] == expr_view(exprs@[k]),
            exprs_view(exprs@).len() == n,
        decreases n - i,
    {
        out.push(exprs[i].name());
        i += 1;
    }
    proof {
        assert(strs_view(out@) =~= names_of(exprs_view(exprs@)));
    }
    out
}

} // verus!
