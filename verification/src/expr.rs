//! Expression trees and the pure predicates over them that drive the
//! projection splitter.

use vstd::prelude::*;

verus! {

/// The identifier of the distinguished higher-order `list_map` builtin.
/// Expressions rooted at this builtin are opaque to the splitter: their
/// subtrees are never split.
pub const LIST_MAP_ID: u64 = 0;

/// Mathematical model of an expression tree. Names are character sequences;
/// children are sequences of models.
pub enum ExprModel {
    /// A reference to a named column of the input. A leaf; no computation.
    Column { name: Seq<char> },
    /// A constant value. A leaf; no computation.
    Literal { value: int },
    /// Renames its inner expression.
    Alias { inner: Box<ExprModel>, name: Seq<char> },
    /// A pure builtin scalar function, identified by an opaque id.
    ScalarFn { id: int, args: Seq<ExprModel> },
    /// A user-defined function, whose evaluation is delegated to an external
    /// runtime.
    Udf { name: Seq<char>, args: Seq<ExprModel> },
    /// Any other computing form (arithmetic, comparison, ...), grouped
    /// generically under an opaque operator id.
    Other { op: int, args: Seq<ExprModel> },
}

/// An expression tree, the unit the projection splitter works on.
#[derive(Debug, PartialEq, Eq)]
pub enum Expr {
    Column(String),
    Literal(i64),
    Alias(Box<Expr>, String),
    ScalarFn(u64, Vec<Expr>),
    Udf(String, Vec<Expr>),
    Other(u64, Vec<Expr>),
}

/// The model of an expression tree: names become character sequences and
/// child vectors become sequences of models.
pub open spec fn expr_view(e: Expr) -> ExprModel
    decreases e,
{
    match e {
        Expr::Column(name) => ExprModel::Column { name: name@ },
        Expr::Literal(v) => ExprModel::Literal { value: v as int },
        Expr::Alias(inner, name) => ExprModel::Alias {
            inner: Box::new(expr_view(*inner)),
            name: name@,
        },
        Expr::ScalarFn(id, args) => ExprModel::ScalarFn { id: id as int, args: exprs_view(args@) },
        Expr::Udf(name, args) => ExprModel::Udf { name: name@, args: exprs_view(args@) },
        Expr::Other(op, args) => ExprModel::Other { op: op as int, args: exprs_view(args@) },
    }
}

/// The models of a sequence of expression trees, in order.
pub open spec fn exprs_view(args: Seq<Expr>) -> Seq<ExprModel>
    decreases args,
{
    if args.len() == 0 {
        Seq::empty()
    } else {
        seq![expr_view(args[0])] + exprs_view(args.drop_first())
    }
}

/// `exprs_view` maps `expr_view` over the sequence, element by element.
pub proof fn lemma_exprs_view(args: Seq<Expr>)
    ensures
        #[trigger] exprs_view(args).len() == args.len(),
        forall|i: int| 0 <= i < args.len() ==> exprs_view(args)[i] == expr_view(args[i]),
    decreases args,
{
    if args.len() > 0 {
        lemma_exprs_view(args.drop_first());
        assert forall|i: int| 0 <= i < args.len() implies exprs_view(args)[i] == expr_view(
            args[i],
        ) by {
            if i > 0 {
                assert(args.drop_first()[i - 1] == args[i]);
            }
        }
    }
}

impl View for Expr {
    type V = ExprModel;

    open spec fn view(&self) -> ExprModel {
        expr_view(*self)
    }
}

/// True iff the root of `e` is a UDF. Aliases are not transparent here:
/// an alias of a UDF is not itself a UDF.
pub open spec fn spec_is_udf(e: ExprModel) -> bool {
    e is Udf
}

/// True iff `e` is the distinguished higher-order `list_map` builtin.
pub open spec fn spec_is_list_map(e: ExprModel) -> bool {
    e matches ExprModel::ScalarFn { id, .. } && id == LIST_MAP_ID as int
}

/// False exactly for the two leaf forms, column references and literals;
/// every other expression computes something.
pub open spec fn spec_requires_computation(e: ExprModel) -> bool {
    !(e is Column || e is Literal)
}

/// The derived name of an expression: an alias supplies it, a column supplies
/// its own name, a literal is named `literal`, and every other form takes the
/// name of its first argument (or the empty name if it has none).
pub open spec fn name_of(e: ExprModel) -> Seq<char>
    decreases e,
{
    match e {
        ExprModel::Column { name } => name,
        ExprModel::Literal { .. } => "literal"@,
        ExprModel::Alias { name, .. } => name,
        ExprModel::ScalarFn { args, .. } => first_arg_name(args),
        ExprModel::Udf { args, .. } => first_arg_name(args),
        ExprModel::Other { args, .. } => first_arg_name(args),
    }
}

/// The name of the first expression of `args`, or the empty name.
pub open spec fn first_arg_name(args: Seq<ExprModel>) -> Seq<char>
    decreases args,
{
    if args.len() == 0 {
        Seq::empty()
    } else {
        name_of(args[0])
    }
}

/// True iff some node of `e` is a UDF; descends everywhere, including below
/// `list_map`.
pub open spec fn spec_has_udf(e: ExprModel) -> bool
    decreases e,
{
    match e {
        ExprModel::Column { .. } => false,
        ExprModel::Literal { .. } => false,
        ExprModel::Alias { inner, .. } => spec_has_udf(*inner),
        ExprModel::ScalarFn { args, .. } => any_has_udf(args),
        ExprModel::Udf { .. } => true,
        ExprModel::Other { args, .. } => any_has_udf(args),
    }
}

/// True iff some expression of `args` contains a UDF.
pub open spec fn any_has_udf(args: Seq<ExprModel>) -> bool
    decreases args,
{
    if args.len() == 0 {
        false
    } else {
        spec_has_udf(args[0]) || any_has_udf(args.drop_first())
    }
}

/// `any_has_udf` holds iff some element contains a UDF.
pub proof fn lemma_any_has_udf(args: Seq<ExprModel>)
    ensures
        #[trigger] any_has_udf(args) <==> exists|i: int|
            0 <= i < args.len() && spec_has_udf(args[i]),
    decreases args,
{
    if args.len() > 0 {
        lemma_any_has_udf(args.drop_first());
        if any_has_udf(args.drop_first()) {
            let j = choose|j: int|
                0 <= j < args.drop_first().len() && spec_has_udf(args.drop_first()[j]);
            assert(args[j + 1] == args.drop_first()[j]);
        }
        if exists|i: int| 0 <= i < args.len() && spec_has_udf(args[i]) {
            let i = choose|i: int| 0 <= i < args.len() && spec_has_udf(args[i]);
            if i > 0 {
                assert(args.drop_first()[i - 1] == args[i]);
            }
        }
    }
}

/// True iff a walk of `e` that does not enter `list_map` subtrees finds a UDF.
/// The body of a `list_map` is opaque to the splitter, so UDFs below one do
/// not count.
pub open spec fn spec_has_udf_skip_lm(e: ExprModel) -> bool
    decreases e,
{
    if spec_is_list_map(e) {
        false
    } else {
        match e {
            ExprModel::Column { .. } => false,
            ExprModel::Literal { .. } => false,
            ExprModel::Alias { inner, .. } => spec_has_udf_skip_lm(*inner),
            ExprModel::ScalarFn { args, .. } => any_has_udf_skip_lm(args),
            ExprModel::Udf { .. } => true,
            ExprModel::Other { args, .. } => any_has_udf_skip_lm(args),
        }
    }
}

/// True iff some expression of `args` has a UDF outside of `list_map` bodies.
pub open spec fn any_has_udf_skip_lm(args: Seq<ExprModel>) -> bool
    decreases args,
{
    if args.len() == 0 {
        false
    } else {
        spec_has_udf_skip_lm(args[0]) || any_has_udf_skip_lm(args.drop_first())
    }
}

/// `any_has_udf_skip_lm` holds iff some element finds a UDF outside
/// `list_map` bodies.
pub proof fn lemma_any_has_udf_skip_lm(args: Seq<ExprModel>)
    ensures
        #[trigger] any_has_udf_skip_lm(args) <==> exists|i: int|
            0 <= i < args.len() && spec_has_udf_skip_lm(args[i]),
    decreases args,
{
    if args.len() > 0 {
        lemma_any_has_udf_skip_lm(args.drop_first());
        if any_has_udf_skip_lm(args.drop_first()) {
            let j = choose|j: int|
                0 <= j < args.drop_first().len() && spec_has_udf_skip_lm(args.drop_first()[j]);
            assert(args[j + 1] == args.drop_first()[j]);
        }
        if exists|i: int| 0 <= i < args.len() && spec_has_udf_skip_lm(args[i]) {
            let i = choose|i: int| 0 <= i < args.len() && spec_has_udf_skip_lm(args[i]);
            if i > 0 {
                assert(args.drop_first()[i - 1] == args[i]);
            }
        }
    }
}

/// True iff the chain of aliases starting at the root of `e` terminates at a
/// UDF. Such expressions are handed to the root-UDF truncation.
pub open spec fn spec_alias_chain_is_udf(e: ExprModel) -> bool
    decreases e,
{
    match e {
        ExprModel::Udf { .. } => true,
        ExprModel::Alias { inner, .. } => spec_alias_chain_is_udf(*inner),
        _ => false,
    }
}

/// True iff the alias chain at the root of `e` terminates at a UDF whose
/// arguments are all leaves (columns or literals). Such an expression is
/// ready to stand alone in a single-UDF projection.
pub open spec fn spec_udf_args_simple(e: ExprModel) -> bool
    decreases e,
{
    match e {
        ExprModel::Udf { args, .. } => forall|i: int|
            0 <= i < args.len() ==> !spec_requires_computation(#[trigger] args[i]),
        ExprModel::Alias { inner, .. } => spec_udf_args_simple(*inner),
        _ => false,
    }
}

/// An expression whose alias chain roots at a UDF has a UDF, with or without
/// skipping `list_map` bodies.
pub proof fn lemma_alias_chain_has_udf(e: ExprModel)
    requires
        spec_alias_chain_is_udf(e),
    ensures
        spec_has_udf(e),
        spec_has_udf_skip_lm(e),
    decreases e,
{
    match e {
        ExprModel::Alias { inner, .. } => {
            lemma_alias_chain_has_udf(*inner);
        },
        _ => {},
    }
}

/// Every expression has height at least 1.
pub proof fn lemma_height_at_least_one(e: ExprModel)
    ensures
        height_of(e) >= 1,
{
}

/// A UDF found outside `list_map` bodies is in particular a UDF somewhere.
pub proof fn lemma_has_udf_skip_implies_has_udf(e: ExprModel)
    requires
        spec_has_udf_skip_lm(e),
    ensures
        spec_has_udf(e),
    decreases e,
{
    match e {
        ExprModel::Alias { inner, .. } => {
            lemma_has_udf_skip_implies_has_udf(*inner);
        },
        ExprModel::ScalarFn { args, .. } => {
            lemma_any_udf_skip_implies_any_udf(args);
        },
        ExprModel::Other { args, .. } => {
            lemma_any_udf_skip_implies_any_udf(args);
        },
        _ => {},
    }
}

/// The sequence form of `lemma_has_udf_skip_implies_has_udf`.
pub proof fn lemma_any_udf_skip_implies_any_udf(args: Seq<ExprModel>)
    requires
        any_has_udf_skip_lm(args),
    ensures
        any_has_udf(args),
    decreases args,
{
    if args.len() > 0 {
        if spec_has_udf_skip_lm(args[0]) {
            lemma_has_udf_skip_implies_has_udf(args[0]);
        } else {
            lemma_any_udf_skip_implies_any_udf(args.drop_first());
        }
    }
}

/// A bound on the height of every element bounds the greatest height.
pub proof fn lemma_max_height_le(args: Seq<ExprModel>, b: nat)
    requires
        forall|i: int| 0 <= i < args.len() ==> height_of(#[trigger] args[i]) <= b,
    ensures
        max_height(args) <= b,
    decreases args,
{
    if args.len() > 0 {
        assert(height_of(args[0]) <= b);
        assert forall|i: int| 0 <= i < args.drop_first().len() implies height_of(
            #[trigger] args.drop_first()[i],
        ) <= b by {
            assert(args.drop_first()[i] == args[i + 1]);
        }
        lemma_max_height_le(args.drop_first(), b);
    }
}

/// The names of the columns referenced anywhere in `e`, in the order a
/// depth-first walk first meets them; a name referenced twice appears twice.
pub open spec fn req_cols(e: ExprModel) -> Seq<Seq<char>>
    decreases e,
{
    match e {
        ExprModel::Column { name } => seq![name],
        ExprModel::Literal { .. } => Seq::empty(),
        ExprModel::Alias { inner, .. } => req_cols(*inner),
        ExprModel::ScalarFn { args, .. } => req_cols_seq(args),
        ExprModel::Udf { args, .. } => req_cols_seq(args),
        ExprModel::Other { args, .. } => req_cols_seq(args),
    }
}

/// The column names referenced by a sequence of expressions, concatenated in
/// order.
pub open spec fn req_cols_seq(args: Seq<ExprModel>) -> Seq<Seq<char>>
    decreases args,
{
    if args.len() == 0 {
        Seq::empty()
    } else {
        req_cols(args[0]) + req_cols_seq(args.drop_first())
    }
}

/// The set of column names referenced anywhere in `e`.
pub open spec fn req_col_set(e: ExprModel) -> Set<Seq<char>> {
    req_cols(e).to_set()
}

/// The height of an expression tree; a leaf has height 1.
pub open spec fn height_of(e: ExprModel) -> nat
    decreases e,
{
    match e {
        ExprModel::Column { .. } => 1,
        ExprModel::Literal { .. } => 1,
        ExprModel::Alias { inner, .. } => 1 + height_of(*inner),
        ExprModel::ScalarFn { args, .. } => 1 + max_height(args),
        ExprModel::Udf { args, .. } => 1 + max_height(args),
        ExprModel::Other { args, .. } => 1 + max_height(args),
    }
}

/// The greatest height among the expressions of `args`, or 0 if it is empty.
pub open spec fn max_height(args: Seq<ExprModel>) -> nat
    decreases args,
{
    if args.len() == 0 {
        0
    } else {
        let h = height_of(args[0]);
        let r = max_height(args.drop_first());
        if h > r {
            h
        } else {
            r
        }
    }
}

/// `max_height` bounds the height of every element and is attained by one of
/// them when the sequence is not empty.
pub proof fn lemma_max_height(args: Seq<ExprModel>)
    ensures
        forall|i: int| 0 <= i < args.len() ==> height_of(args[i]) <= #[trigger] max_height(args),
    decreases args,
{
    if args.len() > 0 {
        lemma_max_height(args.drop_first());
        assert forall|i: int| 0 <= i < args.len() implies height_of(args[i]) <= max_height(
            args,
        ) by {
            if i > 0 {
                assert(args.drop_first()[i - 1] == args[i]);
            }
        }
    }
}

/// True iff no node of `e` is a `list_map`.
pub open spec fn spec_no_list_map(e: ExprModel) -> bool
    decreases e,
{
    !spec_is_list_map(e) && match e {
        ExprModel::Column { .. } => true,
        ExprModel::Literal { .. } => true,
        ExprModel::Alias { inner, .. } => spec_no_list_map(*inner),
        ExprModel::ScalarFn { args, .. } => all_no_list_map(args),
        ExprModel::Udf { args, .. } => all_no_list_map(args),
        ExprModel::Other { args, .. } => all_no_list_map(args),
    }
}

/// True iff no expression of `args` contains a `list_map`.
pub open spec fn all_no_list_map(args: Seq<ExprModel>) -> bool
    decreases args,
{
    if args.len() == 0 {
        true
    } else {
        spec_no_list_map(args[0]) && all_no_list_map(args.drop_first())
    }
}

/// `all_no_list_map` holds iff every element is free of `list_map`.
pub proof fn lemma_all_no_list_map(args: Seq<ExprModel>)
    ensures
        #[trigger] all_no_list_map(args) <==> forall|i: int|
            0 <= i < args.len() ==> spec_no_list_map(#[trigger] args[i]),
    decreases args,
{
    if args.len() > 0 {
        lemma_all_no_list_map(args.drop_first());
        assert(args.drop_first().len() == args.len() - 1);
        assert forall|j: int| 0 <= j < args.drop_first().len() implies args.drop_first()[j]
            == args[j + 1] by {}
        if all_no_list_map(args) {
            assert forall|i: int| 0 <= i < args.len() implies spec_no_list_map(args[i]) by {
                if i > 0 {
                    assert(args.drop_first()[i - 1] == args[i]);
                }
            }
        }
        if forall|i: int| 0 <= i < args.len() ==> spec_no_list_map(#[trigger] args[i]) {
            assert(spec_no_list_map(args[0]));
        }
    }
}

impl Expr {
    /// True iff the root of this expression is a UDF.
    pub fn is_udf(&self) -> (r: bool)
        ensures
            r == spec_is_udf(self@),
    {
        matches!(self, Expr::Udf(..))
    }

    /// True iff this expression is the distinguished `list_map` builtin.
    pub fn is_list_map(&self) -> (r: bool)
        ensures
            r == spec_is_list_map(self@),
    {
        match self {
            Expr::ScalarFn(id, _) => *id == LIST_MAP_ID,
            _ => false,
        }
    }

    /// False for column and literal leaves; true for every computing form.
    pub fn requires_computation(&self) -> (r: bool)
        ensures
            r == spec_requires_computation(self@),
    {
        !matches!(self, Expr::Column(_) | Expr::Literal(_))
    }

    /// The derived name of this expression.
    pub fn name(&self) -> (r: String)
        ensures
            r@ == name_of(self@),
        decreases self,
    {
        match self {
            Expr::Column(name) => name.clone(),
            Expr::Literal(_) => "literal".to_owned(),
            Expr::Alias(_, name) => name.clone(),
            Expr::ScalarFn(_, args) => Self::first_name(args),
            Expr::Udf(_, args) => Self::first_name(args),
            Expr::Other(_, args) => Self::first_name(args),
        }
    }

    /// The name of the first expression of `args`, or the empty name.
    fn first_name(args: &Vec<Expr>) -> (r: String)
        ensures
            r@ == first_arg_name(exprs_view(args@)),
        decreases args,
    {
        proof {
            lemma_exprs_view(args@);
        }
        if args.len() == 0 {
            String::new()
        } else {
            args[0].name()
        }
    }

    /// True iff some node of this expression is a UDF, wherever it stands.
    pub fn has_udf(&self) -> (r: bool)
        ensures
            r == spec_has_udf(self@),
        decreases self,
    {
        match self {
            Expr::Column(_) => false,
            Expr::Literal(_) => false,
            Expr::Udf(..) => true,
            Expr::Alias(inner, _) => inner.has_udf(),
            Expr::ScalarFn(_, args) => Self::args_have_udf(args),
            Expr::Other(_, args) => Self::args_have_udf(args),
        }
    }

    /// True iff some expression of `args` contains a UDF.
    fn args_have_udf(args: &Vec<Expr>) -> (r: bool)
        ensures
            r == any_has_udf(exprs_view(args@)),
        decreases args,
    {
        proof {
            lemma_exprs_view(args@);
            lemma_any_has_udf(exprs_view(args@));
        }
        let n = args.len();
        let mut i: usize = 0;
        while i < n
            invariant
                n == args.len(),
                i <= n,
                forall|j: int| 0 <= j < i ==> !spec_has_udf(exprs_view(args@)[j]),
                any_has_udf(exprs_view(args@)) <==> exists|k: int|
                    0 <= k < args.len() && spec_has_udf(exprs_view(args@)[k]),
                forall|k: int| 0 <= k < args.len() ==> exprs_view(args@)[k] == expr_view(
                    args@[k],
                ),
            decreases n - i,
        {
            if args[i].has_udf() {
                proof {
                    assert(spec_has_udf(exprs_view(args@)[i as int]));
                }
                return true;
            }
            i += 1;
        }
        false
    }

    /// True iff a walk of this expression that does not enter `list_map`
    /// subtrees finds a UDF.
    pub fn has_udf_skip_lm(&self) -> (r: bool)
        ensures
            r == spec_has_udf_skip_lm(self@),
        decreases self,
    {
        if self.is_list_map() {
            return false;
        }
        match self {
            Expr::Column(_) => false,
            Expr::Literal(_) => false,
            Expr::Udf(..) => true,
            Expr::Alias(inner, _) => inner.has_udf_skip_lm(),
            Expr::ScalarFn(_, args) => Self::args_have_udf_skip_lm(args),
            Expr::Other(_, args) => Self::args_have_udf_skip_lm(args),
        }
    }

    /// True iff some expression of `args` has a UDF outside `list_map` bodies.
    pub fn args_have_udf_skip_lm(args: &Vec<Expr>) -> (r: bool)
        ensures
            r == any_has_udf_skip_lm(exprs_view(args@)),
        decreases args,
    {
        proof {
            lemma_exprs_view(args@);
            lemma_any_has_udf_skip_lm(exprs_view(args@));
        }
        let n = args.len();
        let mut i: usize = 0;
        while i < n
            invariant
                n == args.len(),
                i <= n,
                forall|j: int| 0 <= j < i ==> !spec_has_udf_skip_lm(exprs_view(args@)[j]),
                any_has_udf_skip_lm(exprs_view(args@)) <==> exists|k: int|
                    0 <= k < args.len() && spec_has_udf_skip_lm(exprs_view(args@)[k]),
                forall|k: int| 0 <= k < args.len() ==> exprs_view(args@)[k] == expr_view(
                    args@[k],
                ),
            decreases n - i,
        {
            if args[i].has_udf_skip_lm() {
                proof {
                    assert(spec_has_udf_skip_lm(exprs_view(args@)[i as int]));
                }
                return true;
            }
            i += 1;
        }
        false
    }

    /// True iff the chain of aliases at the root terminates at a UDF.
    pub fn alias_chain_is_udf(&self) -> (r: bool)
        ensures
            r == spec_alias_chain_is_udf(self@),
        decreases self,
    {
        match self {
            Expr::Udf(..) => true,
            Expr::Alias(inner, _) => inner.alias_chain_is_udf(),
            _ => false,
        }
    }

    /// Appends to `out` the names of the columns referenced anywhere in this
    /// expression, in first-visit order; duplicates are kept.
    pub fn collect_required_columns(&self, out: &mut Vec<String>)
        ensures
            final(out)@.map_values(|s: String| s@) == old(out)@.map_values(|s: String| s@)
                + req_cols(self@),
        decreases self,
    {
        match self {
            Expr::Column(name) => {
                let ghost before = out@;
                out.push(name.clone());
                proof {
                    assert(out@.map_values(|s: String| s@) =~= before.map_values(|s: String| s@)
                        + req_cols(self@));
                }
            },
            Expr::Literal(_) => {
                proof {
                    assert(out@.map_values(|s: String| s@) =~= out@.map_values(|s: String| s@)
                        + req_cols(self@));
                }
            },
            Expr::Alias(inner, _) => {
                inner.collect_required_columns(out);
            },
            Expr::ScalarFn(_, args) => {
                Self::collect_required_columns_of(args, out);
            },
            Expr::Udf(_, args) => {
                Self::collect_required_columns_of(args, out);
            },
            Expr::Other(_, args) => {
                Self::collect_required_columns_of(args, out);
            },
        }
    }

    /// Appends to `out` the columns referenced by the expressions of `args`,
    /// in order.
    fn collect_required_columns_of(args: &Vec<Expr>, out: &mut Vec<String>)
        ensures
            final(out)@.map_values(|s: String| s@) == old(out)@.map_values(|s: String| s@)
                + req_cols_seq(exprs_view(args@)),
        decreases args,
    {
        proof {
            lemma_exprs_view(args@);
        }
        let n = args.len();
        let mut i: usize = 0;
        while i < n
            invariant
                n == args.len(),
                i <= n,
                out@.map_values(|s: String| s@) == old(out)@.map_values(|s: String| s@)
                    + req_cols_seq(exprs_view(args@).take(i as int)),
                forall|k: int| 0 <= k < args.len() ==> exprs_view(args@)[k] == expr_view(
                    args@[k],
                ),
                exprs_view(args@).len() == args.len(),
            decreases n - i,
        {
            args[i].collect_required_columns(out);
            proof {
                lemma_req_cols_seq_take(exprs_view(args@), i as int);
            }
            i += 1;
        }
        proof {
            assert(exprs_view(args@).take(n as int) =~= exprs_view(args@));
        }
    }

    /// The names of the columns referenced anywhere in this expression, in
    /// first-visit order; duplicates are kept.
    pub fn required_columns(&self) -> (r: Vec<String>)
        ensures
            r@.map_values(|s: String| s@) == req_cols(self@),
    {
        let mut out: Vec<String> = Vec::new();
        proof {
            assert(out@.map_values(|s: String| s@) =~= Seq::<Seq<char>>::empty());
        }
        self.collect_required_columns(&mut out);
        proof {
            assert(out@.map_values(|s: String| s@) =~= req_cols(self@));
        }
        out
    }

    /// True iff no node of this expression is a `list_map`.
    pub fn no_list_map(&self) -> (r: bool)
        ensures
            r == spec_no_list_map(self@),
        decreases self,
    {
        if self.is_list_map() {
            return false;
        }
        match self {
            Expr::Column(_) => true,
            Expr::Literal(_) => true,
            Expr::Udf(_, args) => Self::args_no_list_map(args),
            Expr::Alias(inner, _) => inner.no_list_map(),
            Expr::ScalarFn(_, args) => Self::args_no_list_map(args),
            Expr::Other(_, args) => Self::args_no_list_map(args),
        }
    }

    /// True iff no expression of `args` contains a `list_map`.
    fn args_no_list_map(args: &Vec<Expr>) -> (r: bool)
        ensures
            r == all_no_list_map(exprs_view(args@)),
        decreases args,
    {
        proof {
            lemma_exprs_view(args@);
            lemma_all_no_list_map(exprs_view(args@));
        }
        let n = args.len();
        let mut i: usize = 0;
        while i < n
            invariant
                n == args.len(),
                i <= n,
                forall|j: int| 0 <= j < i ==> spec_no_list_map(exprs_view(args@)[j]),
                all_no_list_map(exprs_view(args@)) <==> forall|k: int|
                    0 <= k < args.len() ==> spec_no_list_map(#[trigger] exprs_view(args@)[k]),
                forall|k: int| 0 <= k < args.len() ==> exprs_view(args@)[k] == expr_view(
                    args@[k],
                ),
            decreases n - i,
        {
            if !args[i].no_list_map() {
                proof {
                    assert(!spec_no_list_map(exprs_view(args@)[i as int]));
                }
                return false;
            }
            i += 1;
        }
        true
    }
}

/// The derived names of a sequence of expressions, in order.
pub open spec fn names_of(s: Seq<ExprModel>) -> Seq<Seq<char>> {
    s.map_values(|e: ExprModel| name_of(e))
}

/// The character sequences of a sequence of strings, in order.
pub open spec fn strs_view(s: Seq<String>) -> Seq<Seq<char>> {
    s.map_values(|x: String| x@)
}

impl Clone for Expr {
    /// A structural copy: the model of the copy equals the model of the
    /// original.
    fn clone(&self) -> (r: Self)
        ensures
            r@ == self@,
        decreases self,
    {
        match self {
            Expr::Column(name) => Expr::Column(name.clone()),
            Expr::Literal(v) => Expr::Literal(*v),
            Expr::Alias(inner, name) => Expr::Alias(Box::new((**inner).clone()), name.clone()),
            Expr::ScalarFn(id, args) => Expr::ScalarFn(*id, clone_exprs(args)),
            Expr::Udf(name, args) => Expr::Udf(name.clone(), clone_exprs(args)),
            Expr::Other(op, args) => Expr::Other(*op, clone_exprs(args)),
        }
    }
}

/// A structural copy of a vector of expressions, element by element.
pub fn clone_exprs(args: &Vec<Expr>) -> (r: Vec<Expr>)
    ensures
        exprs_view(r@) == exprs_view(args@),
        r@.len() == args@.len(),
    decreases args,
{
    proof {
        lemma_exprs_view(args@);
    }
    let n = args.len();
    let mut out: Vec<Expr> = Vec::new();
    let mut i: usize = 0;
    while i < n
        invariant
            n == args.len(),
            i <= n,
            out@.len() == i,
            forall|j: int| 0 <= j < i ==> expr_view(out@[j]) == expr_view(args@[j]),
        decreases n - i,
    {
        out.push(args[i].clone());
        i += 1;
    }
    proof {
        lemma_exprs_view(out@);
        assert(exprs_view(out@) =~= exprs_view(args@));
    }
    out
}

/// The set of names a sequence of expressions produces.
pub open spec fn names_set(s: Seq<ExprModel>) -> Set<Seq<char>> {
    names_of(s).to_set()
}

/// An entry a projection may safely hold while splitting: either it has no
/// UDF outside `list_map` bodies (so it passes through whole, its columns
/// collected), or it is free of `list_map` altogether. An entry that mixes a
/// splittable UDF with a `list_map` keeps column references hidden under the
/// opaque subtree and the pass cannot promise to resolve the stages it
/// builds.
pub open spec fn entry_lm_ok(e: ExprModel) -> bool {
    !spec_has_udf_skip_lm(e) || spec_no_list_map(e)
}

/// A name appears in `req_cols_seq(args)` exactly when it appears in the
/// columns of one of the expressions.
pub proof fn lemma_req_cols_seq_member(args: Seq<ExprModel>, x: Seq<char>)
    ensures
        req_cols_seq(args).contains(x) <==> exists|i: int|
            0 <= i < args.len() && req_cols(#[trigger] args[i]).contains(x),
    decreases args,
{
    if args.len() == 0 {
    } else {
        lemma_req_cols_seq_member(args.drop_first(), x);
        assert(req_cols_seq(args) == req_cols(args[0]) + req_cols_seq(args.drop_first()));
        if req_cols_seq(args).contains(x) {
            let k = choose|k: int| 0 <= k < req_cols_seq(args).len() && req_cols_seq(args)[k] == x;
            if k < req_cols(args[0]).len() {
                assert(req_cols(args[0])[k] == x);
            } else {
                assert(req_cols_seq(args.drop_first())[k - req_cols(args[0]).len()] == x);
                assert(req_cols_seq(args.drop_first()).contains(x));
                let i = choose|i: int|
                    0 <= i < args.drop_first().len() && req_cols(
                        #[trigger] args.drop_first()[i],
                    ).contains(x);
                assert(args[i + 1] == args.drop_first()[i]);
            }
        }
        if exists|i: int| 0 <= i < args.len() && req_cols(#[trigger] args[i]).contains(x) {
            let i = choose|i: int| 0 <= i < args.len() && req_cols(#[trigger] args[i]).contains(x);
            if i == 0 {
                let k = choose|k: int|
                    0 <= k < req_cols(args[0]).len() && req_cols(args[0])[k] == x;
                assert(req_cols_seq(args)[k] == x);
            } else {
                assert(args.drop_first()[i - 1] == args[i]);
                assert(req_cols_seq(args.drop_first()).contains(x));
                let k = choose|k: int|
                    0 <= k < req_cols_seq(args.drop_first()).len() && req_cols_seq(
                        args.drop_first(),
                    )[k] == x;
                assert(req_cols_seq(args)[req_cols(args[0]).len() + k] == x);
            }
        }
    }
}

/// Growing a vector of expressions only grows the set of names it produces.
pub proof fn lemma_names_set_prefix(v1: Seq<Expr>, v2: Seq<Expr>)
    requires
        v1.len() <= v2.len(),
        forall|m: int| 0 <= m < v1.len() ==> v2[m] == v1[m],
    ensures
        names_set(exprs_view(v1)).subset_of(names_set(exprs_view(v2))),
{
    lemma_exprs_view(v1);
    lemma_exprs_view(v2);
    assert forall|x: Seq<char>| names_set(exprs_view(v1)).contains(x) implies names_set(
        exprs_view(v2),
    ).contains(x) by {
        let k = choose|k: int|
            0 <= k < names_of(exprs_view(v1)).len() && names_of(exprs_view(v1))[k] == x;
        assert(names_of(exprs_view(v2))[k] == x);
    }
}

/// `req_cols_seq` distributes over concatenation.
pub proof fn lemma_req_cols_seq_concat(a: Seq<ExprModel>, b: Seq<ExprModel>)
    ensures
        req_cols_seq(a + b) == req_cols_seq(a) + req_cols_seq(b),
    decreases a,
{
    if a.len() == 0 {
        assert(a + b =~= b);
        assert(req_cols_seq(a) =~= Seq::<Seq<char>>::empty());
        assert(req_cols_seq(a) + req_cols_seq(b) =~= req_cols_seq(b));
    } else {
        lemma_req_cols_seq_concat(a.drop_first(), b);
        assert((a + b).len() > 0);
        assert((a + b)[0] == a[0]);
        assert((a + b).drop_first() =~= a.drop_first() + b);
        assert(req_cols(a[0]) + (req_cols_seq(a.drop_first()) + req_cols_seq(b)) =~= (req_cols(
            a[0],
        ) + req_cols_seq(a.drop_first())) + req_cols_seq(b));
    }
}

/// `req_cols_seq` over a prefix one longer adds the columns of the next
/// element.
pub proof fn lemma_req_cols_seq_take(args: Seq<ExprModel>, i: int)
    requires
        0 <= i < args.len(),
    ensures
        req_cols_seq(args.take(i + 1)) == req_cols_seq(args.take(i)) + req_cols(args[i]),
{
    assert(args.take(i + 1) =~= args.take(i) + seq![args[i]]);
    lemma_req_cols_seq_concat(args.take(i), seq![args[i]]);
    assert(seq![args[i]].len() == 1);
    assert(seq![args[i]][0] == args[i]);
    assert(seq![args[i]].drop_first() =~= Seq::<ExprModel>::empty());
    assert(req_cols_seq(seq![args[i]]) == req_cols(args[i]) + req_cols_seq(
        seq![args[i]].drop_first(),
    ));
    assert(req_cols(args[i]) + Seq::<Seq<char>>::empty() =~= req_cols(args[i]));
}

} // verus!
