//! Truncation of projection expressions.
//!
//! Two rewrites prepare an expression for staging. Root-UDF truncation takes
//! an expression whose alias chain roots at a UDF and replaces every
//! computing argument of that UDF with a fresh column reference, lifting the
//! argument out. Child-UDF truncation takes an expression whose root is not a
//! UDF and replaces every UDF-rooted child with a fresh column reference,
//! lifting the child out. Both collect the column references the rewritten
//! expression needs, once per name, in first-visit order.

use vstd::prelude::*;

use crate::expr::{
    all_no_list_map, any_has_udf, expr_view, exprs_view, height_of, lemma_all_no_list_map,
    lemma_any_has_udf, lemma_exprs_view, lemma_max_height, spec_has_udf,
    lemma_names_set_prefix, lemma_req_cols_seq_member, max_height, name_of, names_of, names_set,
    req_col_set, req_cols, req_cols_seq, spec_alias_chain_is_udf, spec_is_list_map, spec_is_udf, strs_view,
    spec_no_list_map, spec_requires_computation, spec_udf_args_simple, Expr, ExprModel,
};
use crate::names::{child_trunc_name, root_trunc_name, spec_child_trunc_name, spec_root_trunc_name};
use crate::plan::{contains_name, names_of_exprs};

verus! {

/// A lifted expression is either a bare column reference or an alias of the
/// sub-expression it stands for, and is no taller than the bound.
pub open spec fn lifted_item_ok(l: ExprModel, h: nat) -> bool {
    (l is Column || l is Alias) && height_of(l) <= h
}

/// The exact effect of root-UDF truncation on a UDF's argument list, with the
/// argument counter starting at `k`: a computing argument numbered `k + j`
/// (counting computing arguments only, in argument order) becomes a reference
/// to the fresh column `spec_root_trunc_name(s, p, k + j)` and is lifted out
/// aliased to that name; a leaf argument stays in place and is not lifted
/// here.
pub open spec fn root_trunc_args(args: Seq<ExprModel>, s: nat, p: nat, k: nat) -> (
    Seq<ExprModel>,
    Seq<ExprModel>,
)
    decreases args,
{
    if args.len() == 0 {
        (Seq::<ExprModel>::empty(), Seq::<ExprModel>::empty())
    } else if spec_requires_computation(args[0]) {
        let nm = spec_root_trunc_name(s, p, k);
        let rest = root_trunc_args(args.drop_first(), s, p, k + 1);
        (
            seq![ExprModel::Column { name: nm }] + rest.0,
            seq![ExprModel::Alias { inner: Box::new(args[0]), name: nm }] + rest.1,
        )
    } else {
        let rest = root_trunc_args(args.drop_first(), s, p, k);
        (seq![args[0]] + rest.0, rest.1)
    }
}

/// Appends to `acc` each column of `new_args`, in order, whose name no
/// expression of `acc` already carries.
pub open spec fn collect_kept_columns(new_args: Seq<ExprModel>, acc: Seq<ExprModel>) -> Seq<
    ExprModel,
>
    decreases new_args,
{
    if new_args.len() == 0 {
        acc
    } else {
        let acc2 = if new_args[0] is Column && !names_of(acc).contains(name_of(new_args[0])) {
            acc.push(new_args[0])
        } else {
            acc
        };
        collect_kept_columns(new_args.drop_first(), acc2)
    }
}

/// The exact effect of root-UDF truncation: aliases are preserved and
/// descended through; at the UDF, every computing argument is replaced by a
/// fresh column reference named after `(s, p, argument counter)` and lifted
/// out aliased to that name, in argument order; then the column references the
/// rewritten UDF still reads are appended, once per name, in argument order.
pub open spec fn spec_truncate_root(e: ExprModel, s: nat, p: nat) -> (ExprModel, Seq<ExprModel>)
    decreases e,
{
    match e {
        ExprModel::Alias { inner, name } => {
            let rec = spec_truncate_root(*inner, s, p);
            (ExprModel::Alias { inner: Box::new(rec.0), name }, rec.1)
        },
        ExprModel::Udf { name, args } => {
            let ra = root_trunc_args(args, s, p, 0);
            (ExprModel::Udf { name, args: ra.0 }, collect_kept_columns(ra.0, ra.1))
        },
        _ => (e, Seq::<ExprModel>::empty()),
    }
}

/// Replaces every computing argument of the UDF at the root of `e` (reached
/// through its alias chain) with a fresh column reference named after
/// `stage_idx`, `expr_idx`, and the argument counter; returns the rewritten
/// expression and the lifted children: one alias per replaced argument, in
/// argument order, followed by the column references the rewritten UDF still
/// reads, once per name, in argument order.
#[verifier::loop_isolation(false)]
#[verifier::rlimit(100)]
pub fn truncate_root_udf(e: &Expr, stage_idx: usize, expr_idx: usize) -> (res: (Expr, Vec<Expr>))
    requires
        spec_alias_chain_is_udf(e@),
    ensures
        res.0@ == spec_truncate_root(e@, stage_idx as nat, expr_idx as nat).0,
        exprs_view(res.1@) == spec_truncate_root(e@, stage_idx as nat, expr_idx as nat).1,
        spec_alias_chain_is_udf(res.0@),
        spec_udf_args_simple(res.0@),
        e@ is Alias ==> res.0@ is Alias && name_of(res.0@) == name_of(e@),
        forall|m: int|
            0 <= m < res.1@.len() ==> lifted_item_ok(
                #[trigger] expr_view(res.1@[m]),
                height_of(e@),
            ),
        e@ is Alias ==> forall|m: int|
            0 <= m < res.1@.len() ==> height_of(#[trigger] expr_view(res.1@[m])) < height_of(e@),
        forall|m: int|
            0 <= m < res.1@.len() ==> req_col_set(#[trigger] expr_view(res.1@[m])).subset_of(
                req_col_set(e@),
            ),
        spec_no_list_map(e@) ==> forall|m: int|
            0 <= m < res.1@.len() ==> spec_no_list_map(#[trigger] expr_view(res.1@[m])),
        req_col_set(res.0@).subset_of(names_set(exprs_view(res.1@))),
    decreases e,
{
    match e {
        Expr::Alias(inner, name) => {
            let (t, lifted) = truncate_root_udf(inner, stage_idx, expr_idx);
            proof {
                assert(height_of(e@) == 1 + height_of(expr_view(**inner)));
                assert(req_col_set(e@) == req_col_set(expr_view(**inner)));
                if spec_no_list_map(e@) {
                    assert(spec_no_list_map(expr_view(**inner)));
                }
            }
            let r = Expr::Alias(Box::new(t), name.clone());
            proof {
                assert(req_col_set(r@) == req_col_set(expr_view(t)));
                assert(spec_truncate_root(e@, stage_idx as nat, expr_idx as nat) == (
                    ExprModel::Alias {
                        inner: Box::new(
                            spec_truncate_root(
                                expr_view(**inner),
                                stage_idx as nat,
                                expr_idx as nat,
                            ).0,
                        ),
                        name: name@,
                    },
                    spec_truncate_root(expr_view(**inner), stage_idx as nat, expr_idx as nat).1,
                ));
            }
            (r, lifted)
        },
        Expr::Udf(uname, args) => {
            proof {
                lemma_exprs_view(args@);
                lemma_max_height(exprs_view(args@));
                assert(height_of(e@) == 1 + max_height(exprs_view(args@)));
                assert(req_col_set(e@) == req_cols_seq(exprs_view(args@)).to_set());
                if spec_no_list_map(e@) {
                    assert(all_no_list_map(exprs_view(args@)));
                }
            }
            let ghost sn = stage_idx as nat;
            let ghost pn = expr_idx as nat;
            let ghost full = exprs_view(args@);
            let n = args.len();
            let mut new_args: Vec<Expr> = Vec::new();
            let mut lifted: Vec<Expr> = Vec::new();
            proof {
                assert(full.skip(0) =~= full);
                assert(exprs_view(new_args@) =~= Seq::<ExprModel>::empty());
                assert(exprs_view(lifted@) =~= Seq::<ExprModel>::empty());
                assert(Seq::<ExprModel>::empty() + root_trunc_args(full, sn, pn, 0).0
                    =~= root_trunc_args(full, sn, pn, 0).0);
                assert(Seq::<ExprModel>::empty() + root_trunc_args(full, sn, pn, 0).1
                    =~= root_trunc_args(full, sn, pn, 0).1);
            }
            let mut k: usize = 0;
            let mut i: usize = 0;
            while i < n
                invariant
                    n == args.len(),
                    i <= n,
                    k <= i,
                    k == lifted@.len(),
                    lifted@.len() <= i,
                    exprs_view(new_args@) + root_trunc_args(full.skip(i as int), sn, pn, k as nat).0
                        == root_trunc_args(full, sn, pn, 0).0,
                    exprs_view(lifted@) + root_trunc_args(full.skip(i as int), sn, pn, k as nat).1
                        == root_trunc_args(full, sn, pn, 0).1,
                    new_args@.len() == i,
                    forall|j: int|
                        0 <= j < i ==> !spec_requires_computation(
                            #[trigger] expr_view(new_args@[j]),
                        ),
                    forall|m: int|
                        0 <= m < lifted@.len() ==> lifted_item_ok(
                            #[trigger] expr_view(lifted@[m]),
                            height_of(e@),
                        ),
                    forall|m: int|
                        0 <= m < lifted@.len() ==> req_col_set(
                            #[trigger] expr_view(lifted@[m]),
                        ).subset_of(req_col_set(e@)),
                    spec_no_list_map(e@) ==> forall|m: int|
                        0 <= m < lifted@.len() ==> spec_no_list_map(
                            #[trigger] expr_view(lifted@[m]),
                        ),
                    forall|j: int|
                        0 <= j < i ==> (#[trigger] expr_view(new_args@[j]) == expr_view(args@[j])
                            || (expr_view(new_args@[j]) is Column && names_set(
                            exprs_view(lifted@),
                        ).contains(name_of(expr_view(new_args@[j]))))),
                    forall|j: int| 0 <= j < n ==> exprs_view(args@)[j] == expr_view(args@[j]),
                    exprs_view(args@).len() == n,
                    forall|j: int|
                        0 <= j < n ==> height_of(#[trigger] exprs_view(args@)[j]) <= max_height(
                            exprs_view(args@),
                        ),
                    height_of(e@) == 1 + max_height(exprs_view(args@)),
                    req_col_set(e@) == req_cols_seq(exprs_view(args@)).to_set(),
                    spec_no_list_map(e@) ==> all_no_list_map(exprs_view(args@)),
                decreases n - i,
            {
                let ghost pre_lifted = lifted@;
                let ghost pre_new = new_args@;
                let ghost pre_k = k as nat;
                let ghost suf = full.skip(i as int);
                proof {
                    assert(suf.len() == n - i);
                    assert(suf[0] == full[i as int]);
                    assert(full[i as int] == expr_view(args@[i as int]));
                    assert(suf.drop_first() =~= full.skip(i as int + 1));
                }
                if args[i].requires_computation() {
                    let nm = root_trunc_name(stage_idx, expr_idx, k);
                    proof {
                        assert(k < n);
                    }
                    if k < n {
                        k += 1;
                    }
                    let lifted_item = Expr::Alias(Box::new(args[i].clone()), nm.clone());
                    proof {
                        assert(exprs_view(args@)[i as int] == expr_view(args@[i as int]));
                        assert(height_of(expr_view(args@[i as int])) <= max_height(
                            exprs_view(args@),
                        ));
                        assert(expr_view(lifted_item) is Alias);
                        assert(height_of(expr_view(lifted_item)) == 1 + height_of(
                            expr_view(args@[i as int]),
                        ));
                    }
                    proof {
                        assert forall|x: Seq<char>| req_col_set(
                            expr_view(lifted_item),
                        ).contains(x) implies req_col_set(e@).contains(x) by {
                            assert(req_cols(expr_view(args@[i as int])).contains(x));
                            lemma_req_cols_seq_member(exprs_view(args@), x);
                        }
                        if spec_no_list_map(e@) {
                            assert(all_no_list_map(exprs_view(args@)));
                            lemma_all_no_list_map(exprs_view(args@));
                            assert(spec_no_list_map(exprs_view(args@)[i as int]));
                            assert(spec_no_list_map(expr_view(args@[i as int])));
                            assert(spec_no_list_map(expr_view(lifted_item)));
                        }
                    }
                    let ghost colv = ExprModel::Column { name: spec_root_trunc_name(sn, pn, pre_k) };
                    let ghost aliasv = ExprModel::Alias {
                        inner: Box::new(full[i as int]),
                        name: spec_root_trunc_name(sn, pn, pre_k),
                    };
                    proof {
                        assert(nm@ == spec_root_trunc_name(sn, pn, pre_k));
                        assert(expr_view(lifted_item) == aliasv);
                        assert(spec_requires_computation(suf[0]));
                        assert(root_trunc_args(suf, sn, pn, pre_k) == (
                            seq![colv] + root_trunc_args(suf.drop_first(), sn, pn, pre_k + 1).0,
                            seq![aliasv] + root_trunc_args(suf.drop_first(), sn, pn, pre_k + 1).1,
                        ));
                    }
                    lifted.push(lifted_item);
                    new_args.push(Expr::Column(nm));
                    proof {
                        lemma_names_set_prefix(pre_lifted, lifted@);
                        lemma_exprs_view(lifted@);
                        lemma_exprs_view(pre_lifted);
                        lemma_exprs_view(new_args@);
                        lemma_exprs_view(pre_new);
                        assert(expr_view(lifted@[lifted@.len() - 1]) == expr_view(lifted_item));
                        assert(names_of(exprs_view(lifted@))[lifted@.len() - 1] == nm@);
                        assert(names_set(exprs_view(lifted@)).contains(nm@));
                        assert(name_of(expr_view(new_args@[i as int])) == nm@);
                        assert(exprs_view(new_args@) =~= exprs_view(pre_new) + seq![colv]);
                        assert(exprs_view(lifted@) =~= exprs_view(pre_lifted) + seq![aliasv]);
                        assert((exprs_view(pre_new) + seq![colv]) + root_trunc_args(
                            full.skip(i as int + 1),
                            sn,
                            pn,
                            pre_k + 1,
                        ).0 =~= exprs_view(pre_new) + (seq![colv] + root_trunc_args(
                            full.skip(i as int + 1),
                            sn,
                            pn,
                            pre_k + 1,
                        ).0));
                        assert((exprs_view(pre_lifted) + seq![aliasv]) + root_trunc_args(
                            full.skip(i as int + 1),
                            sn,
                            pn,
                            pre_k + 1,
                        ).1 =~= exprs_view(pre_lifted) + (seq![aliasv] + root_trunc_args(
                            full.skip(i as int + 1),
                            sn,
                            pn,
                            pre_k + 1,
                        ).1));
                    }
                } else {
                    new_args.push(args[i].clone());
                    proof {
                        lemma_exprs_view(new_args@);
                        lemma_exprs_view(pre_new);
                        assert(expr_view(new_args@[i as int]) == expr_view(args@[i as int]));
                        assert(!spec_requires_computation(suf[0]));
                        assert(root_trunc_args(suf, sn, pn, pre_k) == (
                            seq![suf[0]] + root_trunc_args(suf.drop_first(), sn, pn, pre_k).0,
                            root_trunc_args(suf.drop_first(), sn, pn, pre_k).1,
                        ));
                        assert(exprs_view(new_args@) =~= exprs_view(pre_new) + seq![suf[0]]);
                        assert((exprs_view(pre_new) + seq![suf[0]]) + root_trunc_args(
                            full.skip(i as int + 1),
                            sn,
                            pn,
                            pre_k,
                        ).0 =~= exprs_view(pre_new) + (seq![suf[0]] + root_trunc_args(
                            full.skip(i as int + 1),
                            sn,
                            pn,
                            pre_k,
                        ).0));
                    }
                }
                i += 1;
            }
            proof {
                assert(full.skip(n as int) =~= Seq::<ExprModel>::empty());
                assert(root_trunc_args(full.skip(n as int), sn, pn, k as nat)
                    == (Seq::<ExprModel>::empty(), Seq::<ExprModel>::empty()));
                assert(exprs_view(new_args@) + Seq::<ExprModel>::empty() =~= exprs_view(new_args@));
                assert(exprs_view(lifted@) + Seq::<ExprModel>::empty() =~= exprs_view(lifted@));
                assert(exprs_view(new_args@) == root_trunc_args(full, sn, pn, 0).0);
                assert(exprs_view(lifted@) == root_trunc_args(full, sn, pn, 0).1);
            }
            let ghost aliases0 = exprs_view(lifted@);
            let ghost na = exprs_view(new_args@);
            proof {
                assert(na.skip(0) =~= na);
            }
            // Collect the column references the truncated UDF still reads,
            // once per name.
            let mut j: usize = 0;
            while j < n
                invariant
                    n == new_args@.len(),
                    n == args.len(),
                    j <= n,
                    na == exprs_view(new_args@),
                    na == root_trunc_args(full, sn, pn, 0).0,
                    aliases0 == root_trunc_args(full, sn, pn, 0).1,
                    collect_kept_columns(na.skip(j as int), exprs_view(lifted@))
                        == collect_kept_columns(na, aliases0),
                    forall|jj: int|
                        0 <= jj < n ==> !spec_requires_computation(
                            #[trigger] expr_view(new_args@[jj]),
                        ),
                    forall|m: int|
                        0 <= m < lifted@.len() ==> lifted_item_ok(
                            #[trigger] expr_view(lifted@[m]),
                            height_of(e@),
                        ),
                    forall|m: int|
                        0 <= m < lifted@.len() ==> req_col_set(
                            #[trigger] expr_view(lifted@[m]),
                        ).subset_of(req_col_set(e@)),
                    spec_no_list_map(e@) ==> forall|m: int|
                        0 <= m < lifted@.len() ==> spec_no_list_map(
                            #[trigger] expr_view(lifted@[m]),
                        ),
                    forall|jj: int|
                        0 <= jj < n ==> (#[trigger] expr_view(new_args@[jj]) == expr_view(
                            args@[jj],
                        ) || (expr_view(new_args@[jj]) is Column && names_set(
                            exprs_view(lifted@),
                        ).contains(name_of(expr_view(new_args@[jj]))))),
                    forall|jj: int|
                        0 <= jj < j ==> (expr_view(#[trigger] new_args@[jj]) is Column
                            ==> names_set(exprs_view(lifted@)).contains(
                            name_of(expr_view(new_args@[jj])),
                        )),
                    forall|jj: int| 0 <= jj < n ==> exprs_view(args@)[jj] == expr_view(args@[jj]),
                    exprs_view(args@).len() == n,
                    req_col_set(e@) == req_cols_seq(exprs_view(args@)).to_set(),
                    height_of(e@) >= 1,
                decreases n - j,
            {
                let ghost suf2 = na.skip(j as int);
                let ghost acc0 = exprs_view(lifted@);
                proof {
                    lemma_exprs_view(new_args@);
                    assert(suf2.len() == n - j);
                    assert(suf2[0] == na[j as int]);
                    assert(na[j as int] == expr_view(new_args@[j as int]));
                    assert(suf2.drop_first() =~= na.skip(j as int + 1));
                }
                let is_col = matches!(&new_args[j], Expr::Column(_));
                proof {
                    if !is_col {
                        assert(!(suf2[0] is Column));
                        assert(collect_kept_columns(suf2, acc0) == collect_kept_columns(
                            suf2.drop_first(),
                            acc0,
                        ));
                    }
                }
                if is_col {
                    let names = names_of_exprs(&lifted);
                    let nm = new_args[j].name();
                    proof {
                        assert(nm@ == name_of(suf2[0]));
                        assert(strs_view(names@) == names_of(acc0));
                    }
                    if !contains_name(&names, &nm) {
                        let ghost pre_lifted = lifted@;
                        proof {
                            assert(!names_of(acc0).contains(name_of(suf2[0])));
                            assert(collect_kept_columns(suf2, acc0) == collect_kept_columns(
                                suf2.drop_first(),
                                acc0.push(suf2[0]),
                            ));
                        }
                        let col = new_args[j].clone();
                        proof {
                            assert(expr_view(col) == expr_view(new_args@[j as int]));
                            assert(expr_view(col) is Column);
                            assert(height_of(expr_view(col)) == 1);
                            // The name is not among the lifted names, so this
                            // column is an original argument of the UDF, not a
                            // fresh replacement.
                            assert(!names_of(exprs_view(lifted@)).contains(nm@));
                            assert(!names_set(exprs_view(lifted@)).contains(nm@));
                            assert(name_of(expr_view(new_args@[j as int])) == nm@);
                            assert(expr_view(new_args@[j as int]) == expr_view(args@[j as int]));
                            assert forall|x: Seq<char>| req_col_set(expr_view(col)).contains(
                                x,
                            ) implies req_col_set(e@).contains(x) by {
                                assert(req_cols(expr_view(col)).contains(x));
                                assert(req_cols(expr_view(args@[j as int])).contains(x));
                                assert(req_cols(exprs_view(args@)[j as int]).contains(x));
                                lemma_req_cols_seq_member(exprs_view(args@), x);
                                assert(req_cols_seq(exprs_view(args@)).contains(x));
                            }
                        }
                        lifted.push(col);
                        proof {
                            lemma_names_set_prefix(pre_lifted, lifted@);
                            lemma_exprs_view(lifted@);
                            lemma_exprs_view(pre_lifted);
                            assert(expr_view(lifted@[lifted@.len() - 1]) == expr_view(col));
                            assert(names_of(exprs_view(lifted@))[lifted@.len() - 1] == nm@);
                            assert(names_set(exprs_view(lifted@)).contains(nm@));
                            assert(exprs_view(lifted@) =~= acc0.push(suf2[0]));
                        }
                    } else {
                        proof {
                            assert(names_of(acc0).contains(nm@));
                            assert(collect_kept_columns(suf2, acc0) == collect_kept_columns(
                                suf2.drop_first(),
                                acc0,
                            ));
                        }
                    }
                }
                j += 1;
            }
            proof {
                lemma_exprs_view(new_args@);
                assert(na.len() == n);
                assert(na.skip(n as int) =~= Seq::<ExprModel>::empty());
                assert(collect_kept_columns(na.skip(n as int), exprs_view(lifted@))
                    == exprs_view(lifted@));
                assert(exprs_view(lifted@) == collect_kept_columns(na, aliases0));
            }
            let r = Expr::Udf(uname.clone(), new_args);
            proof {
                lemma_exprs_view(new_args@);
                assert(r@ matches ExprModel::Udf { args: a, .. } && a == exprs_view(new_args@));
                assert(r@ == (ExprModel::Udf { name: uname@, args: na }));
                assert(spec_truncate_root(e@, sn, pn) == (
                    ExprModel::Udf { name: uname@, args: root_trunc_args(full, sn, pn, 0).0 },
                    collect_kept_columns(
                        root_trunc_args(full, sn, pn, 0).0,
                        root_trunc_args(full, sn, pn, 0).1,
                    ),
                ));
                assert(r@ == spec_truncate_root(e@, sn, pn).0);
                assert(exprs_view(lifted@) == spec_truncate_root(e@, sn, pn).1);
                assert forall|jj: int|
                    0 <= jj < exprs_view(new_args@).len() implies !spec_requires_computation(
                    #[trigger] exprs_view(new_args@)[jj],
                ) by {
                    assert(exprs_view(new_args@)[jj] == expr_view(new_args@[jj]));
                }
                assert forall|x: Seq<char>| req_col_set(r@).contains(x) implies names_set(
                    exprs_view(lifted@),
                ).contains(x) by {
                    assert(req_col_set(r@) == req_cols_seq(exprs_view(new_args@)).to_set());
                    lemma_req_cols_seq_member(exprs_view(new_args@), x);
                    let jj = choose|jj: int|
                        0 <= jj < exprs_view(new_args@).len() && req_cols(
                            #[trigger] exprs_view(new_args@)[jj],
                        ).contains(x);
                    assert(exprs_view(new_args@)[jj] == expr_view(new_args@[jj]));
                    assert(expr_view(new_args@[jj]) is Column);
                    assert(name_of(expr_view(new_args@[jj])) == x);
                }
            }
            (r, lifted)
        },
        _ => {
            proof {
                assert(false);
            }
            vstd::pervasive::unreached()
        },
    }
}

/// The exact effect of one child-UDF walk step on `e`, with the sticky
/// `list_map` marker `lm` and the lifted accumulator `acc` threaded through:
/// the rewritten expression, the grown accumulator, and the new marker.
pub open spec fn spec_walk_children(
    e: ExprModel,
    s: nat,
    p: nat,
    acc: Seq<ExprModel>,
    lm: bool,
) -> (ExprModel, Seq<ExprModel>, bool)
    decreases e,
{
    if lm {
        (e, acc, true)
    } else if spec_is_list_map(e) {
        (e, acc, true)
    } else {
        match e {
            ExprModel::Column { name } => (
                e,
                if names_of(acc).contains(name) {
                    acc
                } else {
                    acc.push(e)
                },
                false,
            ),
            ExprModel::Literal { .. } => (e, acc, false),
            ExprModel::Alias { inner, name } => {
                if *inner is Udf {
                    let nm = spec_child_trunc_name(s, p, 0);
                    (
                        ExprModel::Alias {
                            inner: Box::new(ExprModel::Column { name: nm }),
                            name,
                        },
                        acc.push(ExprModel::Alias { inner, name: nm }),
                        false,
                    )
                } else {
                    let rec = spec_walk_children(*inner, s, p, acc, false);
                    (ExprModel::Alias { inner: Box::new(rec.0), name }, rec.1, rec.2)
                }
            },
            ExprModel::ScalarFn { id, args } => {
                let ph1 = walk_phase_one(args, s, p, 0, acc);
                let ph2 = walk_phase_two(args, s, p, 0, ph1.1, false);
                (ExprModel::ScalarFn { id, args: ph2.0 }, ph2.1, ph2.2)
            },
            ExprModel::Other { op, args } => {
                let ph1 = walk_phase_one(args, s, p, 0, acc);
                let ph2 = walk_phase_two(args, s, p, 0, ph1.1, false);
                (ExprModel::Other { op, args: ph2.0 }, ph2.1, ph2.2)
            },
            ExprModel::Udf { .. } => (e, acc, false),
        }
    }
}

/// First phase at a node: UDF-rooted child number `k + j` (counting replaced
/// children only, in argument order) is lifted out aliased to
/// `spec_child_trunc_name(s, p, k + j)` and replaced by a reference to that
/// column; other children stay.
pub open spec fn walk_phase_one(
    args: Seq<ExprModel>,
    s: nat,
    p: nat,
    k: nat,
    acc: Seq<ExprModel>,
) -> (Seq<ExprModel>, Seq<ExprModel>)
    decreases args,
{
    if args.len() == 0 {
        (Seq::<ExprModel>::empty(), acc)
    } else if args[0] is Udf {
        let nm = spec_child_trunc_name(s, p, k);
        let rest = walk_phase_one(
            args.drop_first(),
            s,
            p,
            k + 1,
            acc.push(ExprModel::Alias { inner: Box::new(args[0]), name: nm }),
        );
        (seq![ExprModel::Column { name: nm }] + rest.0, rest.1)
    } else {
        let rest = walk_phase_one(args.drop_first(), s, p, k, acc);
        (seq![args[0]] + rest.0, rest.1)
    }
}

/// Second phase at a node: the walk descends into the children that came out
/// of the first phase, in order. A replaced child is a fresh column whose
/// alias the accumulator already carries, so it passes through untouched; a
/// kept child is walked, or left as it is once the `list_map` marker is set.
pub open spec fn walk_phase_two(
    args: Seq<ExprModel>,
    s: nat,
    p: nat,
    k: nat,
    acc: Seq<ExprModel>,
    lm: bool,
) -> (Seq<ExprModel>, Seq<ExprModel>, bool)
    decreases args,
{
    if args.len() == 0 {
        (Seq::<ExprModel>::empty(), acc, lm)
    } else if args[0] is Udf {
        let nm = spec_child_trunc_name(s, p, k);
        let rest = walk_phase_two(args.drop_first(), s, p, k + 1, acc, lm);
        (seq![ExprModel::Column { name: nm }] + rest.0, rest.1, rest.2)
    } else if lm {
        let rest = walk_phase_two(args.drop_first(), s, p, k, acc, lm);
        (seq![args[0]] + rest.0, rest.1, rest.2)
    } else {
        let w = spec_walk_children(args[0], s, p, acc, false);
        let rest = walk_phase_two(args.drop_first(), s, p, k, w.1, w.2);
        (seq![w.0] + rest.0, rest.1, rest.2)
    }
}

/// The `m`-th alias lifted by root truncation carries the fresh name with
/// argument counter `k + m`: the counter advances in lockstep with the lifted
/// list and never repeats.
pub proof fn lemma_root_trunc_lifted_names(args: Seq<ExprModel>, s: nat, p: nat, k: nat)
    ensures
        ({
            let l = root_trunc_args(args, s, p, k).1;
            forall|m: int|
                0 <= m < l.len() ==> (#[trigger] l[m]) is Alias && name_of(l[m])
                    == spec_root_trunc_name(s, p, (k + m) as nat)
        }),
    decreases args,
{
    if args.len() > 0 {
        if spec_requires_computation(args[0]) {
            lemma_root_trunc_lifted_names(args.drop_first(), s, p, k + 1);
            let l = root_trunc_args(args, s, p, k).1;
            let rest = root_trunc_args(args.drop_first(), s, p, k + 1).1;
            assert forall|m: int| 0 <= m < l.len() implies (#[trigger] l[m]) is Alias && name_of(
                l[m],
            ) == spec_root_trunc_name(s, p, (k + m) as nat) by {
                if m > 0 {
                    assert(l[m] == rest[m - 1]);
                }
            }
        } else {
            lemma_root_trunc_lifted_names(args.drop_first(), s, p, k);
        }
    }
}

/// Within one root truncation, the lifted aliases carry pairwise distinct
/// fresh names (invariant I5 at the stage level): distinct argument counters
/// render to distinct names.
pub proof fn lemma_root_trunc_names_distinct(args: Seq<ExprModel>, s: nat, p: nat)
    ensures
        ({
            let l = root_trunc_args(args, s, p, 0).1;
            forall|a: int, b: int|
                0 <= a < b < l.len() ==> name_of(#[trigger] l[a]) != name_of(#[trigger] l[b])
        }),
{
    lemma_root_trunc_lifted_names(args, s, p, 0);
    let l = root_trunc_args(args, s, p, 0).1;
    assert forall|a: int, b: int| 0 <= a < b < l.len() implies name_of(#[trigger] l[a]) != name_of(
        #[trigger] l[b],
    ) by {
        crate::names::lemma_root_trunc_names_injective(s, p, a as nat, s, p, b as nat);
    }
}

/// The `m`-th alias lifted by the first phase of the child walk at one node
/// carries the fresh name with counter `k + m`, beyond what `acc` already
/// held.
pub proof fn lemma_walk_phase_one_lifted_names(
    args: Seq<ExprModel>,
    s: nat,
    p: nat,
    k: nat,
    acc: Seq<ExprModel>,
)
    ensures
        ({
            let l = walk_phase_one(args, s, p, k, acc).1;
            l.len() >= acc.len() && (forall|m: int| 0 <= m < acc.len() ==> l[m] == acc[m])
                && (forall|m: int|
                acc.len() <= m < l.len() ==> (#[trigger] l[m]) is Alias && name_of(l[m])
                    == spec_child_trunc_name(s, p, (k + m - acc.len()) as nat))
        }),
    decreases args,
{
    if args.len() > 0 {
        if args[0] is Udf {
            let nm = spec_child_trunc_name(s, p, k);
            let acc2 = acc.push(ExprModel::Alias { inner: Box::new(args[0]), name: nm });
            lemma_walk_phase_one_lifted_names(args.drop_first(), s, p, k + 1, acc2);
            let l = walk_phase_one(args, s, p, k, acc).1;
            assert forall|m: int| acc.len() <= m < l.len() implies (#[trigger] l[m]) is Alias
                && name_of(l[m]) == spec_child_trunc_name(s, p, (k + m - acc.len()) as nat) by {
                if m == acc.len() {
                    assert(l[m] == acc2[m]);
                }
            }
        } else {
            lemma_walk_phase_one_lifted_names(args.drop_first(), s, p, k, acc);
        }
    }
}

/// Within one node of the child walk, the lifted aliases carry pairwise
/// distinct fresh names (invariant I5 at the node level).
pub proof fn lemma_walk_phase_one_names_distinct(args: Seq<ExprModel>, s: nat, p: nat)
    ensures
        ({
            let l = walk_phase_one(args, s, p, 0, Seq::<ExprModel>::empty()).1;
            forall|a: int, b: int|
                0 <= a < b < l.len() ==> name_of(#[trigger] l[a]) != name_of(#[trigger] l[b])
        }),
{
    lemma_walk_phase_one_lifted_names(args, s, p, 0, Seq::<ExprModel>::empty());
    let l = walk_phase_one(args, s, p, 0, Seq::<ExprModel>::empty()).1;
    assert forall|a: int, b: int| 0 <= a < b < l.len() implies name_of(#[trigger] l[a]) != name_of(
        #[trigger] l[b],
    ) by {
        crate::names::lemma_child_trunc_names_injective(s, p, a as nat, s, p, b as nat);
    }
}

/// How many expressions of `s` are rooted at a UDF.
pub open spec fn udf_count(s: Seq<ExprModel>) -> nat
    decreases s,
{
    if s.len() == 0 {
        0
    } else {
        (if s[0] is Udf {
            1nat
        } else {
            0nat
        }) + udf_count(s.drop_first())
    }
}

/// Extending a prefix by one element adds that element's contribution to the
/// UDF count.
proof fn lemma_udf_count_take(s: Seq<ExprModel>, i: int)
    requires
        0 <= i < s.len(),
    ensures
        udf_count(s.take(i + 1)) == udf_count(s.take(i)) + (if s[i] is Udf {
            1nat
        } else {
            0nat
        }),
    decreases i,
{
    if i == 0 {
        assert(s.take(1).len() == 1);
        assert(s.take(1)[0] == s[0]);
        assert(s.take(1).drop_first() =~= Seq::<ExprModel>::empty());
        assert(s.take(0) =~= Seq::<ExprModel>::empty());
    } else {
        lemma_udf_count_take(s.drop_first(), i - 1);
        assert(s.take(i + 1)[0] == s[0]);
        assert(s.take(i)[0] == s[0]);
        assert(s.take(i + 1).drop_first() =~= s.drop_first().take(i));
        assert(s.take(i).drop_first() =~= s.drop_first().take(i - 1));
        assert(s.drop_first()[i - 1] == s[i]);
    }
}

/// The UDF count of a sequence never exceeds its length.
proof fn lemma_udf_count_le(s: Seq<ExprModel>)
    ensures
        udf_count(s) <= s.len(),
    decreases s,
{
    if s.len() > 0 {
        lemma_udf_count_le(s.drop_first());
    }
}

/// One step of child-UDF truncation, walking `e` top-down. UDF-rooted
/// children are replaced by fresh column references and lifted; column
/// references are collected once per name; everything at or below a
/// `list_map`, and everything visited after one, is left untouched
/// (`lm_seen` is the sticky marker for that). The root of `e` is never a UDF:
/// the caller routes expressions rooted at a UDF to root-UDF truncation.
#[verifier::rlimit(100)]
pub fn truncate_udf_children(
    e: &Expr,
    stage_idx: usize,
    expr_idx: usize,
    lm_seen: &mut bool,
    lifted: &mut Vec<Expr>,
) -> (r: Expr)
    requires
        !spec_is_udf(e@),
    ensures
        ({
            let w = spec_walk_children(
                e@,
                stage_idx as nat,
                expr_idx as nat,
                exprs_view(old(lifted)@),
                *old(lm_seen),
            );
            r@ == w.0 && exprs_view(final(lifted)@) == w.1 && *final(lm_seen) == w.2
        }),
        final(lifted)@.len() >= old(lifted)@.len(),
        forall|m: int| 0 <= m < old(lifted)@.len() ==> final(lifted)@[m] == old(lifted)@[m],
        forall|m: int|
            old(lifted)@.len() <= m < final(lifted)@.len() ==> lifted_item_ok(
                #[trigger] expr_view(final(lifted)@[m]),
                height_of(e@),
            ),
        (e@ is Alias && !spec_alias_chain_is_udf(e@)) ==> forall|m: int|
            old(lifted)@.len() <= m < final(lifted)@.len() ==> height_of(
                #[trigger] expr_view(final(lifted)@[m]),
            ) < height_of(e@),
        forall|m: int|
            old(lifted)@.len() <= m < final(lifted)@.len() ==> req_col_set(
                #[trigger] expr_view(final(lifted)@[m]),
            ).subset_of(req_col_set(e@)),
        spec_no_list_map(e@) ==> forall|m: int|
            old(lifted)@.len() <= m < final(lifted)@.len() ==> spec_no_list_map(
                #[trigger] expr_view(final(lifted)@[m]),
            ),
        (spec_no_list_map(e@) && !*old(lm_seen)) ==> !*final(lm_seen),
        (spec_no_list_map(e@) && !*old(lm_seen)) ==> !spec_has_udf(r@),
        (spec_no_list_map(e@) && !*old(lm_seen)) ==> req_col_set(r@).subset_of(
            names_set(exprs_view(final(lifted)@)),
        ),
        (e@ is Column && names_set(exprs_view(old(lifted)@)).contains(name_of(e@)))
            ==> final(lifted)@ == old(lifted)@,
        !*old(lm_seen) ==> !spec_alias_chain_is_udf(r@),
        *old(lm_seen) ==> *final(lm_seen),
        *old(lm_seen) ==> r@ == e@ && final(lifted)@ == old(lifted)@,
        e@ is Alias ==> r@ is Alias && name_of(r@) == name_of(e@),
        e@ is Column ==> r@ == e@,
    decreases height_of(e@),
{
    let ghost sn = stage_idx as nat;
    let ghost pn = expr_idx as nat;
    let ghost acc0 = exprs_view(lifted@);
    if *lm_seen {
        let r = e.clone();
        proof {
            assert(spec_walk_children(e@, sn, pn, acc0, true) == (e@, acc0, true));
        }
        return r;
    }
    let lm = e.is_list_map();
    if lm {
        *lm_seen = true;
        let r = e.clone();
        proof {
            assert(spec_walk_children(e@, sn, pn, acc0, false) == (e@, acc0, true));
        }
        return r;
    }
    match e {
        Expr::Column(_) => {
            let names = names_of_exprs(lifted);
            let nm = e.name();
            if !contains_name(&names, &nm) {
                let ghost pre_lifted = lifted@;
                let col = e.clone();
                proof {
                    assert(expr_view(col) is Column);
                    assert(height_of(expr_view(col)) == 1);
                    assert(req_col_set(expr_view(col)) == req_col_set(e@));
                }
                proof {
                    assert(!names_of(acc0).contains(name_of(e@)));
                }
                lifted.push(col);
                proof {
                    lemma_exprs_view(lifted@);
                    lemma_exprs_view(pre_lifted);
                    assert(expr_view(lifted@[lifted@.len() - 1]) == expr_view(col));
                    assert(names_of(exprs_view(lifted@))[lifted@.len() - 1] == nm@);
                    assert(names_set(exprs_view(lifted@)).contains(nm@));
                    assert(req_cols(e@) == seq![name_of(e@)]);
                    assert forall|x: Seq<char>| req_col_set(e@).contains(x) implies names_set(
                        exprs_view(lifted@),
                    ).contains(x) by {
                        assert(x == name_of(e@));
                    }
                    assert(exprs_view(lifted@) =~= acc0.push(e@));
                    assert(spec_walk_children(e@, sn, pn, acc0, false) == (
                        e@,
                        acc0.push(e@),
                        false,
                    ));
                }
            } else {
                proof {
                    assert(names_of(exprs_view(lifted@)).contains(nm@));
                    assert(names_set(exprs_view(lifted@)).contains(nm@));
                    assert(req_cols(e@) == seq![name_of(e@)]);
                    assert forall|x: Seq<char>| req_col_set(e@).contains(x) implies names_set(
                        exprs_view(lifted@),
                    ).contains(x) by {
                        assert(x == name_of(e@));
                    }
                    assert(spec_walk_children(e@, sn, pn, acc0, false) == (e@, acc0, false));
                }
            }
            let r = e.clone();
            proof {
                assert(!spec_has_udf(r@));
            }
            r
        },
        Expr::Literal(_) => {
            let r = e.clone();
            proof {
                assert(spec_walk_children(e@, sn, pn, acc0, false) == (e@, acc0, false));
                assert(!spec_has_udf(r@));
                assert forall|x: Seq<char>| req_col_set(r@).contains(x) implies names_set(
                    exprs_view(lifted@),
                ).contains(x) by {
                    assert(req_cols(r@) == Seq::<Seq<char>>::empty());
                }
            }
            r
        },
        Expr::Alias(inner, name) => {
            proof {
                assert(height_of(e@) == 1 + height_of(expr_view(**inner)));
                assert(req_col_set(e@) == req_col_set(expr_view(**inner)));
                if spec_no_list_map(e@) {
                    assert(spec_no_list_map(expr_view(**inner)));
                }
            }
            if inner.is_udf() {
                // The single child of this alias is a UDF: lift it whole.
                let ghost pre_lifted_alias = lifted@;
                let nm = child_trunc_name(stage_idx, expr_idx, 0);
                let lifted_item = Expr::Alias(Box::new((**inner).clone()), nm.clone());
                proof {
                    assert(spec_alias_chain_is_udf(expr_view(**inner)));
                    assert(spec_alias_chain_is_udf(e@));
                    assert(expr_view(lifted_item) is Alias);
                    assert(height_of(expr_view(lifted_item)) == 1 + height_of(expr_view(**inner)));
                    assert(req_col_set(expr_view(lifted_item)) == req_col_set(e@));
                }
                proof {
                    assert(nm@ == spec_child_trunc_name(sn, pn, 0));
                    assert(expr_view(lifted_item) == (ExprModel::Alias {
                        inner: Box::new(expr_view(**inner)),
                        name: nm@,
                    }));
                }
                lifted.push(lifted_item);
                let col_ref = Expr::Column(nm);
                proof {
                    assert(col_ref@ == (ExprModel::Column { name: nm@ }));
                }
                let r = Expr::Alias(Box::new(col_ref), name.clone());
                proof {
                    assert(!spec_alias_chain_is_udf(ExprModel::Column { name: nm@ }));
                    assert(!spec_alias_chain_is_udf(r@));
                    lemma_exprs_view(lifted@);
                    assert(expr_view(lifted@[lifted@.len() - 1]) == expr_view(lifted_item));
                    assert(names_of(exprs_view(lifted@))[lifted@.len() - 1] == nm@);
                    assert(names_set(exprs_view(lifted@)).contains(nm@));
                    assert(r@ == (ExprModel::Alias {
                        inner: Box::new(ExprModel::Column { name: nm@ }),
                        name: name@,
                    }));
                    assert(req_cols(ExprModel::Column { name: nm@ }) == seq![nm@]);
                    assert(req_cols(r@) == req_cols(ExprModel::Column { name: nm@ }));
                    assert forall|x: Seq<char>| req_col_set(r@).contains(x) implies names_set(
                        exprs_view(lifted@),
                    ).contains(x) by {
                        assert(x == nm@);
                    }
                    assert(!spec_has_udf(ExprModel::Column { name: nm@ }));
                    assert(!spec_has_udf(r@));
                    lemma_exprs_view(pre_lifted_alias);
                    assert(exprs_view(lifted@) =~= acc0.push(
                        ExprModel::Alias { inner: Box::new(expr_view(**inner)), name: nm@ },
                    ));
                    assert(spec_walk_children(e@, sn, pn, acc0, false) == (
                        ExprModel::Alias {
                            inner: Box::new(ExprModel::Column { name: nm@ }),
                            name: name@,
                        },
                        acc0.push(
                            ExprModel::Alias { inner: Box::new(expr_view(**inner)), name: nm@ },
                        ),
                        false,
                    ));
                    assert(r@ == spec_walk_children(e@, sn, pn, acc0, false).0);
                }
                r
            } else {
                let ghost pre_len = lifted@.len();
                let t = truncate_udf_children(inner, stage_idx, expr_idx, lm_seen, lifted);
                proof {
                    assert forall|m: int| pre_len <= m < lifted@.len() implies height_of(
                        #[trigger] expr_view(lifted@[m]),
                    ) < height_of(e@) by {
                        assert(lifted_item_ok(expr_view(lifted@[m]), height_of(expr_view(**inner))));
                    }
                }
                let r = Expr::Alias(Box::new(t), name.clone());
                proof {
                    assert(req_col_set(r@) == req_col_set(expr_view(t)));
                    assert(spec_has_udf(r@) == spec_has_udf(expr_view(t)));
                    assert(spec_alias_chain_is_udf(r@) == spec_alias_chain_is_udf(expr_view(t)));
                    let ghost rec = spec_walk_children(expr_view(**inner), sn, pn, acc0, false);
                    assert(expr_view(t) == rec.0 && exprs_view(lifted@) == rec.1 && *lm_seen
                        == rec.2);
                    assert(spec_walk_children(e@, sn, pn, acc0, false) == (
                        ExprModel::Alias { inner: Box::new(rec.0), name: name@ },
                        rec.1,
                        rec.2,
                    ));
                    assert(r@ == spec_walk_children(e@, sn, pn, acc0, false).0);
                }
                r
            }
        },
        Expr::ScalarFn(op, args) => {
            let out_args = truncate_children_of(e, args, stage_idx, expr_idx, lm_seen, lifted);
            let r = Expr::ScalarFn(*op, out_args);
            proof {
                lemma_exprs_view(out_args@);
                lemma_children_result(e@, r@, exprs_view(out_args@), lifted@, *lm_seen);
                let ghost ph1 = walk_phase_one(exprs_view(args@), sn, pn, 0, acc0);
                let ghost ph2 = walk_phase_two(exprs_view(args@), sn, pn, 0, ph1.1, false);
                assert(exprs_view(out_args@) == ph2.0 && exprs_view(lifted@) == ph2.1 && *lm_seen
                    == ph2.2);
                assert(spec_walk_children(e@, sn, pn, acc0, false) == (
                    ExprModel::ScalarFn { id: op as int, args: ph2.0 },
                    ph2.1,
                    ph2.2,
                ));
                assert(r@ == spec_walk_children(e@, sn, pn, acc0, false).0);
            }
            r
        },
        Expr::Other(op, args) => {
            let out_args = truncate_children_of(e, args, stage_idx, expr_idx, lm_seen, lifted);
            let r = Expr::Other(*op, out_args);
            proof {
                lemma_exprs_view(out_args@);
                lemma_children_result(e@, r@, exprs_view(out_args@), lifted@, *lm_seen);
                let ghost ph1 = walk_phase_one(exprs_view(args@), sn, pn, 0, acc0);
                let ghost ph2 = walk_phase_two(exprs_view(args@), sn, pn, 0, ph1.1, false);
                assert(exprs_view(out_args@) == ph2.0 && exprs_view(lifted@) == ph2.1 && *lm_seen
                    == ph2.2);
                assert(spec_walk_children(e@, sn, pn, acc0, false) == (
                    ExprModel::Other { op: op as int, args: ph2.0 },
                    ph2.1,
                    ph2.2,
                ));
                assert(r@ == spec_walk_children(e@, sn, pn, acc0, false).0);
            }
            r
        },
        Expr::Udf(..) => {
            proof {
                assert(false);
            }
            vstd::pervasive::unreached()
        },
    }
}

/// Lifts per-child facts to the rebuilt node: if no child has a UDF, the node
/// has none; if every child's columns are covered by the lifted names, so are
/// the node's.
proof fn lemma_children_result(
    ev: ExprModel,
    rv: ExprModel,
    outs: Seq<ExprModel>,
    lifted: Seq<Expr>,
    lm_now: bool,
)
    requires
        (rv matches ExprModel::ScalarFn { args: a, .. } && a == outs) || (rv matches
            ExprModel::Other { args: a, .. } && a == outs),
        spec_no_list_map(ev) && !lm_now ==> forall|j: int|
            0 <= j < outs.len() ==> !spec_has_udf(#[trigger] outs[j]),
        spec_no_list_map(ev) && !lm_now ==> forall|j: int|
            0 <= j < outs.len() ==> req_col_set(#[trigger] outs[j]).subset_of(
                names_set(exprs_view(lifted)),
            ),
    ensures
        spec_no_list_map(ev) && !lm_now ==> !spec_has_udf(rv),
        spec_no_list_map(ev) && !lm_now ==> req_col_set(rv).subset_of(
            names_set(exprs_view(lifted)),
        ),
{
    if spec_no_list_map(ev) && !lm_now {
        lemma_any_has_udf(outs);
        assert(!any_has_udf(outs));
        assert(req_col_set(rv) == req_cols_seq(outs).to_set());
        assert forall|x: Seq<char>| req_col_set(rv).contains(x) implies names_set(
            exprs_view(lifted),
        ).contains(x) by {
            lemma_req_cols_seq_member(outs, x);
            let j = choose|j: int| 0 <= j < outs.len() && req_cols(#[trigger] outs[j]).contains(x);
            assert(req_col_set(outs[j]).contains(x));
        }
    }
}

/// The two phases of child-UDF truncation at one node: first every UDF-rooted
/// child of `args` is replaced by a fresh column reference and lifted, in
/// argument order; then the walk descends into the resulting children, in
/// order.
#[verifier::loop_isolation(false)]
#[verifier::rlimit(100)]
fn truncate_children_of(
    e: &Expr,
    args: &Vec<Expr>,
    stage_idx: usize,
    expr_idx: usize,
    lm_seen: &mut bool,
    lifted: &mut Vec<Expr>,
) -> (out: Vec<Expr>)
    requires
        !*old(lm_seen),
        (e@ matches ExprModel::ScalarFn { args: a, .. } && a == exprs_view(args@)) || (e@ matches
            ExprModel::Other { args: a, .. } && a == exprs_view(args@)),
    ensures
        ({
            let ph1 = walk_phase_one(
                exprs_view(args@),
                stage_idx as nat,
                expr_idx as nat,
                0,
                exprs_view(old(lifted)@),
            );
            let ph2 = walk_phase_two(
                exprs_view(args@),
                stage_idx as nat,
                expr_idx as nat,
                0,
                ph1.1,
                false,
            );
            exprs_view(out@) == ph2.0 && exprs_view(final(lifted)@) == ph2.1 && *final(lm_seen)
                == ph2.2
        }),
        final(lifted)@.len() >= old(lifted)@.len(),
        forall|m: int| 0 <= m < old(lifted)@.len() ==> final(lifted)@[m] == old(lifted)@[m],
        forall|m: int|
            old(lifted)@.len() <= m < final(lifted)@.len() ==> lifted_item_ok(
                #[trigger] expr_view(final(lifted)@[m]),
                height_of(e@),
            ),
        forall|m: int|
            old(lifted)@.len() <= m < final(lifted)@.len() ==> req_col_set(
                #[trigger] expr_view(final(lifted)@[m]),
            ).subset_of(req_col_set(e@)),
        spec_no_list_map(e@) ==> forall|m: int|
            old(lifted)@.len() <= m < final(lifted)@.len() ==> spec_no_list_map(
                #[trigger] expr_view(final(lifted)@[m]),
            ),
        spec_no_list_map(e@) ==> !*final(lm_seen),
        spec_no_list_map(e@) ==> forall|j: int|
            0 <= j < out@.len() ==> !spec_has_udf(#[trigger] expr_view(out@[j])),
        spec_no_list_map(e@) ==> forall|j: int|
            0 <= j < out@.len() ==> req_col_set(#[trigger] expr_view(out@[j])).subset_of(
                names_set(exprs_view(final(lifted)@)),
            ),
        out@.len() == args@.len(),
    decreases height_of(e@), 0nat,
{
    proof {
        lemma_exprs_view(args@);
        lemma_max_height(exprs_view(args@));
        assert(height_of(e@) == 1 + max_height(exprs_view(args@)));
        assert(req_col_set(e@) == req_cols_seq(exprs_view(args@)).to_set());
        if spec_no_list_map(e@) {
            assert(all_no_list_map(exprs_view(args@)));
            lemma_all_no_list_map(exprs_view(args@));
        }
    }
    let ghost sn = stage_idx as nat;
    let ghost pn = expr_idx as nat;
    let ghost full = exprs_view(args@);
    let ghost hacc0 = exprs_view(lifted@);
    let n = args.len();
    let mut new_args: Vec<Expr> = Vec::new();
    proof {
        assert(hacc0 == exprs_view(old(lifted)@));
        assert(full.skip(0) =~= full);
        assert(exprs_view(new_args@) =~= Seq::<ExprModel>::empty());
        assert(Seq::<ExprModel>::empty() + walk_phase_one(full, sn, pn, 0, hacc0).0
            =~= walk_phase_one(full, sn, pn, 0, hacc0).0);
        assert(full.take(0) =~= Seq::<ExprModel>::empty());
        assert(udf_count(full.take(0)) == 0);
    }
    let mut k: usize = 0;
    let mut i: usize = 0;
    while i < n
        invariant
            n == args.len(),
            i <= n,
            k <= i,
            full == exprs_view(args@),
            hacc0 == exprs_view(old(lifted)@),
            k as nat == udf_count(full.take(i as int)),
            exprs_view(new_args@) + walk_phase_one(
                full.skip(i as int),
                sn,
                pn,
                k as nat,
                exprs_view(lifted@),
            ).0 == walk_phase_one(full, sn, pn, 0, hacc0).0,
            walk_phase_one(full.skip(i as int), sn, pn, k as nat, exprs_view(lifted@)).1
                == walk_phase_one(full, sn, pn, 0, hacc0).1,
            forall|j: int|
                0 <= j < i ==> (full[j] is Udf ==> #[trigger] expr_view(new_args@[j]) == (
                ExprModel::Column {
                    name: spec_child_trunc_name(sn, pn, udf_count(full.take(j))),
                })),
            forall|j: int|
                0 <= j < i ==> (!(full[j] is Udf) ==> #[trigger] expr_view(new_args@[j])
                    == full[j]),
            new_args@.len() == i,
            forall|j: int| 0 <= j < i ==> !spec_is_udf(#[trigger] expr_view(new_args@[j])),
            forall|j: int|
                0 <= j < i ==> height_of(#[trigger] expr_view(new_args@[j])) < height_of(e@),
            forall|j: int|
                0 <= j < i ==> (#[trigger] expr_view(new_args@[j]) == expr_view(args@[j]) || (
                expr_view(new_args@[j]) is Column && names_set(exprs_view(lifted@)).contains(
                    name_of(expr_view(new_args@[j])),
                ))),
            spec_no_list_map(e@) ==> forall|j: int|
                0 <= j < i ==> spec_no_list_map(#[trigger] expr_view(new_args@[j])),
            forall|m: int| 0 <= m < old(lifted)@.len() ==> lifted@[m] == old(lifted)@[m],
            lifted@.len() >= old(lifted)@.len(),
            forall|m: int|
                old(lifted)@.len() <= m < lifted@.len() ==> lifted_item_ok(
                    #[trigger] expr_view(lifted@[m]),
                    height_of(e@),
                ),
            forall|m: int|
                old(lifted)@.len() <= m < lifted@.len() ==> req_col_set(
                    #[trigger] expr_view(lifted@[m]),
                ).subset_of(req_col_set(e@)),
            spec_no_list_map(e@) ==> forall|m: int|
                old(lifted)@.len() <= m < lifted@.len() ==> spec_no_list_map(
                    #[trigger] expr_view(lifted@[m]),
                ),
            forall|j: int| 0 <= j < n ==> exprs_view(args@)[j] == expr_view(args@[j]),
            exprs_view(args@).len() == n,
            forall|j: int|
                0 <= j < n ==> height_of(#[trigger] exprs_view(args@)[j]) <= max_height(
                    exprs_view(args@),
                ),
            height_of(e@) == 1 + max_height(exprs_view(args@)),
            req_col_set(e@) == req_cols_seq(exprs_view(args@)).to_set(),
            spec_no_list_map(e@) ==> forall|j: int|
                0 <= j < n ==> spec_no_list_map(#[trigger] exprs_view(args@)[j]),
            !*lm_seen,
        decreases n - i,
    {
        proof {
            assert(exprs_view(args@)[i as int] == expr_view(args@[i as int]));
            assert(height_of(expr_view(args@[i as int])) <= max_height(exprs_view(args@)));
            crate::expr::lemma_height_at_least_one(expr_view(args@[i as int]));
        }
        let ghost pre_lifted = lifted@;
        let ghost pre_new = new_args@;
        let ghost pre_k = k as nat;
        let ghost suf = full.skip(i as int);
        proof {
            assert(suf.len() == n - i);
            assert(suf[0] == full[i as int]);
            assert(full[i as int] == expr_view(args@[i as int]));
            assert(suf.drop_first() =~= full.skip(i as int + 1));
            lemma_udf_count_take(full, i as int);
            assert(full.take(i as int).len() == i);
            lemma_udf_count_le(full.take(i as int));
        }
        if args[i].is_udf() {
            let nm = child_trunc_name(stage_idx, expr_idx, k);
            proof {
                assert(k < n);
            }
            if k < n {
                k += 1;
            }
            let lifted_item = Expr::Alias(Box::new(args[i].clone()), nm.clone());
            proof {
                assert(expr_view(lifted_item) is Alias);
                assert(height_of(expr_view(lifted_item)) == 1 + height_of(
                    expr_view(args@[i as int]),
                ));
                assert forall|x: Seq<char>| req_col_set(expr_view(lifted_item)).contains(
                    x,
                ) implies req_col_set(e@).contains(x) by {
                    assert(req_cols(expr_view(args@[i as int])).contains(x));
                    assert(req_cols(exprs_view(args@)[i as int]).contains(x));
                    lemma_req_cols_seq_member(exprs_view(args@), x);
                }
                if spec_no_list_map(e@) {
                    assert(spec_no_list_map(exprs_view(args@)[i as int]));
                    assert(spec_no_list_map(expr_view(lifted_item)));
                }
            }
            let ghost colv = ExprModel::Column { name: spec_child_trunc_name(sn, pn, pre_k) };
            let ghost aliasv = ExprModel::Alias {
                inner: Box::new(full[i as int]),
                name: spec_child_trunc_name(sn, pn, pre_k),
            };
            proof {
                assert(nm@ == spec_child_trunc_name(sn, pn, pre_k));
                assert(expr_view(lifted_item) == aliasv);
                assert(suf[0] is Udf);
                assert(walk_phase_one(suf, sn, pn, pre_k, exprs_view(pre_lifted)) == (
                    seq![colv] + walk_phase_one(
                        suf.drop_first(),
                        sn,
                        pn,
                        pre_k + 1,
                        exprs_view(pre_lifted).push(aliasv),
                    ).0,
                    walk_phase_one(
                        suf.drop_first(),
                        sn,
                        pn,
                        pre_k + 1,
                        exprs_view(pre_lifted).push(aliasv),
                    ).1,
                ));
            }
            lifted.push(lifted_item);
            new_args.push(Expr::Column(nm));
            proof {
                lemma_names_set_prefix(pre_lifted, lifted@);
                lemma_exprs_view(lifted@);
                lemma_exprs_view(pre_lifted);
                lemma_exprs_view(new_args@);
                lemma_exprs_view(pre_new);
                assert(expr_view(lifted@[lifted@.len() - 1]) == expr_view(lifted_item));
                assert(names_of(exprs_view(lifted@))[lifted@.len() - 1] == nm@);
                assert(names_set(exprs_view(lifted@)).contains(nm@));
                assert(name_of(expr_view(new_args@[i as int])) == nm@);
                assert(exprs_view(lifted@) =~= exprs_view(pre_lifted).push(aliasv));
                assert(exprs_view(new_args@) =~= exprs_view(pre_new) + seq![colv]);
                assert((exprs_view(pre_new) + seq![colv]) + walk_phase_one(
                    full.skip(i as int + 1),
                    sn,
                    pn,
                    pre_k + 1,
                    exprs_view(lifted@),
                ).0 =~= exprs_view(pre_new) + (seq![colv] + walk_phase_one(
                    full.skip(i as int + 1),
                    sn,
                    pn,
                    pre_k + 1,
                    exprs_view(lifted@),
                ).0));
            }
        } else {
            let kept = args[i].clone();
            proof {
                assert(height_of(expr_view(kept)) <= max_height(exprs_view(args@)));
                if spec_no_list_map(e@) {
                    assert(spec_no_list_map(exprs_view(args@)[i as int]));
                }
                assert(!(suf[0] is Udf));
                assert(walk_phase_one(suf, sn, pn, pre_k, exprs_view(pre_lifted)) == (
                    seq![suf[0]] + walk_phase_one(
                        suf.drop_first(),
                        sn,
                        pn,
                        pre_k,
                        exprs_view(pre_lifted),
                    ).0,
                    walk_phase_one(suf.drop_first(), sn, pn, pre_k, exprs_view(pre_lifted)).1,
                ));
            }
            new_args.push(kept);
            proof {
                lemma_exprs_view(new_args@);
                lemma_exprs_view(pre_new);
                assert(expr_view(new_args@[i as int]) == full[i as int]);
                assert(exprs_view(new_args@) =~= exprs_view(pre_new) + seq![suf[0]]);
                assert((exprs_view(pre_new) + seq![suf[0]]) + walk_phase_one(
                    full.skip(i as int + 1),
                    sn,
                    pn,
                    pre_k,
                    exprs_view(lifted@),
                ).0 =~= exprs_view(pre_new) + (seq![suf[0]] + walk_phase_one(
                    full.skip(i as int + 1),
                    sn,
                    pn,
                    pre_k,
                    exprs_view(lifted@),
                ).0));
            }
        }
        i += 1;
    }
    proof {
        assert(full.skip(n as int) =~= Seq::<ExprModel>::empty());
        assert(walk_phase_one(full.skip(n as int), sn, pn, k as nat, exprs_view(lifted@)) == (
            Seq::<ExprModel>::empty(),
            exprs_view(lifted@),
        ));
        assert(exprs_view(new_args@) + Seq::<ExprModel>::empty() =~= exprs_view(new_args@));
        assert(exprs_view(new_args@) == walk_phase_one(full, sn, pn, 0, hacc0).0);
        assert(exprs_view(lifted@) == walk_phase_one(full, sn, pn, 0, hacc0).1);
    }
    let ghost ph1acc = exprs_view(lifted@);
    let ghost na2 = exprs_view(new_args@);
    // Descend into the resulting children, in order.
    proof {
        assert forall|jj: int| 0 <= jj < n implies (#[trigger] expr_view(new_args@[jj]) is Column
            && names_set(exprs_view(lifted@)).contains(name_of(expr_view(new_args@[jj])))
            || req_col_set(expr_view(new_args@[jj])).subset_of(req_col_set(e@))) by {
            if expr_view(new_args@[jj]) == expr_view(args@[jj]) {
                assert forall|x: Seq<char>| req_col_set(expr_view(new_args@[jj])).contains(
                    x,
                ) implies req_col_set(e@).contains(x) by {
                    assert(req_cols(expr_view(args@[jj])).contains(x));
                    assert(req_cols(exprs_view(args@)[jj]).contains(x));
                    lemma_req_cols_seq_member(exprs_view(args@), x);
                }
            }
        }
    }
    let mut out_args: Vec<Expr> = Vec::new();
    proof {
        assert(exprs_view(out_args@) =~= Seq::<ExprModel>::empty());
        assert(Seq::<ExprModel>::empty() + walk_phase_two(full, sn, pn, 0, ph1acc, false).0
            =~= walk_phase_two(full, sn, pn, 0, ph1acc, false).0);
    }
    let mut j: usize = 0;
    while j < n
        invariant
            n == new_args@.len(),
            j <= n,
            full == exprs_view(args@),
            full.len() == n,
            na2 == exprs_view(new_args@),
            na2 == walk_phase_one(full, sn, pn, 0, hacc0).0,
            ph1acc == walk_phase_one(full, sn, pn, 0, hacc0).1,
            hacc0 == exprs_view(old(lifted)@),
            exprs_view(out_args@) + walk_phase_two(
                full.skip(j as int),
                sn,
                pn,
                udf_count(full.take(j as int)),
                exprs_view(lifted@),
                *lm_seen,
            ).0 == walk_phase_two(full, sn, pn, 0, ph1acc, false).0,
            walk_phase_two(
                full.skip(j as int),
                sn,
                pn,
                udf_count(full.take(j as int)),
                exprs_view(lifted@),
                *lm_seen,
            ).1 == walk_phase_two(full, sn, pn, 0, ph1acc, false).1,
            walk_phase_two(
                full.skip(j as int),
                sn,
                pn,
                udf_count(full.take(j as int)),
                exprs_view(lifted@),
                *lm_seen,
            ).2 == walk_phase_two(full, sn, pn, 0, ph1acc, false).2,
            forall|jj: int|
                0 <= jj < n ==> (full[jj] is Udf ==> #[trigger] expr_view(new_args@[jj]) == (
                ExprModel::Column {
                    name: spec_child_trunc_name(sn, pn, udf_count(full.take(jj))),
                })),
            forall|jj: int|
                0 <= jj < n ==> (!(full[jj] is Udf) ==> #[trigger] expr_view(new_args@[jj])
                    == full[jj]),
            forall|jj: int|
                0 <= jj < n ==> (#[trigger] expr_view(new_args@[jj]) == expr_view(args@[jj]) || (
                expr_view(new_args@[jj]) is Column && names_set(exprs_view(lifted@)).contains(
                    name_of(expr_view(new_args@[jj])),
                ))),
            out_args@.len() == j,
            forall|jj: int| 0 <= jj < n ==> !spec_is_udf(#[trigger] expr_view(new_args@[jj])),
            forall|jj: int|
                0 <= jj < n ==> height_of(#[trigger] expr_view(new_args@[jj])) < height_of(e@),
            forall|jj: int|
                0 <= jj < n ==> (#[trigger] expr_view(new_args@[jj]) is Column && names_set(
                    exprs_view(lifted@),
                ).contains(name_of(expr_view(new_args@[jj]))) || req_col_set(
                    expr_view(new_args@[jj]),
                ).subset_of(req_col_set(e@))),
            spec_no_list_map(e@) ==> forall|jj: int|
                0 <= jj < n ==> spec_no_list_map(#[trigger] expr_view(new_args@[jj])),
            forall|m: int| 0 <= m < old(lifted)@.len() ==> lifted@[m] == old(lifted)@[m],
            lifted@.len() >= old(lifted)@.len(),
            forall|m: int|
                old(lifted)@.len() <= m < lifted@.len() ==> lifted_item_ok(
                    #[trigger] expr_view(lifted@[m]),
                    height_of(e@),
                ),
            forall|m: int|
                old(lifted)@.len() <= m < lifted@.len() ==> req_col_set(
                    #[trigger] expr_view(lifted@[m]),
                ).subset_of(req_col_set(e@)),
            spec_no_list_map(e@) ==> forall|m: int|
                old(lifted)@.len() <= m < lifted@.len() ==> spec_no_list_map(
                    #[trigger] expr_view(lifted@[m]),
                ),
            spec_no_list_map(e@) ==> !*lm_seen,
            spec_no_list_map(e@) ==> forall|jj: int|
                0 <= jj < j ==> !spec_has_udf(#[trigger] expr_view(out_args@[jj])),
            spec_no_list_map(e@) ==> forall|jj: int|
                0 <= jj < j ==> req_col_set(#[trigger] expr_view(out_args@[jj])).subset_of(
                    names_set(exprs_view(lifted@)),
                ),
        decreases n - j,
    {
        let ghost pre_lifted = lifted@;
        let ghost pre_flag = *lm_seen;
        let ghost pre_out = out_args@;
        let ghost sufj = full.skip(j as int);
        let ghost kj = udf_count(full.take(j as int));
        proof {
            assert(sufj.len() == n - j);
            assert(sufj[0] == full[j as int]);
            assert(sufj.drop_first() =~= full.skip(j as int + 1));
            lemma_udf_count_take(full, j as int);
        }
        let t = truncate_udf_children(&new_args[j], stage_idx, expr_idx, lm_seen, lifted);
        out_args.push(t);
        proof {
            let ghost w = spec_walk_children(
                expr_view(new_args@[j as int]),
                sn,
                pn,
                exprs_view(pre_lifted),
                pre_flag,
            );
            assert(expr_view(t) == w.0 && exprs_view(lifted@) == w.1 && *lm_seen == w.2);
            lemma_exprs_view(out_args@);
            lemma_exprs_view(pre_out);
            assert(exprs_view(out_args@) =~= exprs_view(pre_out) + seq![expr_view(t)]);
            if full[j as int] is Udf {
                // A replaced child: a fresh column whose alias the
                // accumulator already carries, so the walk is a no-op.
                let ghost fresh = ExprModel::Column {
                    name: spec_child_trunc_name(sn, pn, kj),
                };
                assert(expr_view(new_args@[j as int]) == fresh);
                assert(!(fresh == full[j as int]));
                assert(expr_view(args@[j as int]) == full[j as int]);
                assert(!(expr_view(new_args@[j as int]) == expr_view(args@[j as int])));
                assert(expr_view(new_args@[j as int]) is Column && names_set(
                    exprs_view(pre_lifted),
                ).contains(name_of(expr_view(new_args@[j as int]))));
                assert(names_set(exprs_view(pre_lifted)).contains(name_of(fresh)));
                assert(names_of(exprs_view(pre_lifted)).contains(name_of(fresh)));
                assert(w == (fresh, exprs_view(pre_lifted), pre_flag));
                assert(walk_phase_two(sufj, sn, pn, kj, exprs_view(pre_lifted), pre_flag) == (
                    seq![fresh] + walk_phase_two(
                        sufj.drop_first(),
                        sn,
                        pn,
                        kj + 1,
                        exprs_view(pre_lifted),
                        pre_flag,
                    ).0,
                    walk_phase_two(
                        sufj.drop_first(),
                        sn,
                        pn,
                        kj + 1,
                        exprs_view(pre_lifted),
                        pre_flag,
                    ).1,
                    walk_phase_two(
                        sufj.drop_first(),
                        sn,
                        pn,
                        kj + 1,
                        exprs_view(pre_lifted),
                        pre_flag,
                    ).2,
                ));
            } else {
                assert(expr_view(new_args@[j as int]) == full[j as int]);
                if pre_flag {
                    assert(w == (full[j as int], exprs_view(pre_lifted), true));
                    assert(walk_phase_two(sufj, sn, pn, kj, exprs_view(pre_lifted), pre_flag)
                        == (
                    seq![full[j as int]] + walk_phase_two(
                        sufj.drop_first(),
                        sn,
                        pn,
                        kj,
                        exprs_view(pre_lifted),
                        pre_flag,
                    ).0,
                    walk_phase_two(
                        sufj.drop_first(),
                        sn,
                        pn,
                        kj,
                        exprs_view(pre_lifted),
                        pre_flag,
                    ).1,
                    walk_phase_two(
                        sufj.drop_first(),
                        sn,
                        pn,
                        kj,
                        exprs_view(pre_lifted),
                        pre_flag,
                    ).2,
                    ));
                } else {
                    assert(walk_phase_two(sufj, sn, pn, kj, exprs_view(pre_lifted), false) == (
                        seq![w.0] + walk_phase_two(
                            sufj.drop_first(),
                            sn,
                            pn,
                            kj,
                            w.1,
                            w.2,
                        ).0,
                        walk_phase_two(sufj.drop_first(), sn, pn, kj, w.1, w.2).1,
                        walk_phase_two(sufj.drop_first(), sn, pn, kj, w.1, w.2).2,
                    ));
                }
            }
            assert((exprs_view(pre_out) + seq![expr_view(t)]) + walk_phase_two(
                full.skip(j as int + 1),
                sn,
                pn,
                udf_count(full.take(j as int + 1)),
                exprs_view(lifted@),
                *lm_seen,
            ).0 =~= exprs_view(pre_out) + (seq![expr_view(t)] + walk_phase_two(
                full.skip(j as int + 1),
                sn,
                pn,
                udf_count(full.take(j as int + 1)),
                exprs_view(lifted@),
                *lm_seen,
            ).0));
            lemma_names_set_prefix(pre_lifted, lifted@);
            assert forall|jj: int|
                0 <= jj < n implies (#[trigger] expr_view(new_args@[jj]) == expr_view(args@[jj])
                || (expr_view(new_args@[jj]) is Column && names_set(exprs_view(lifted@)).contains(
                name_of(expr_view(new_args@[jj])),
            ))) by {
                if !(expr_view(new_args@[jj]) == expr_view(args@[jj])) {
                    assert(names_set(exprs_view(pre_lifted)).contains(
                        name_of(expr_view(new_args@[jj])),
                    ));
                }
            }
            let child = expr_view(new_args@[j as int]);
            if child is Column && names_set(exprs_view(pre_lifted)).contains(name_of(child)) {
                // The walk left a known column untouched.
                assert(lifted@ == pre_lifted);
                assert(expr_view(t) == child);
                if spec_no_list_map(e@) {
                    assert(req_cols(child) == seq![name_of(child)]);
                    assert forall|x: Seq<char>| req_col_set(child).contains(x) implies names_set(
                        exprs_view(lifted@),
                    ).contains(x) by {
                        assert(x == name_of(child));
                    }
                }
            } else {
                assert(req_col_set(child).subset_of(req_col_set(e@)));
                assert forall|m: int|
                    pre_lifted.len() <= m < lifted@.len() implies req_col_set(
                    #[trigger] expr_view(lifted@[m]),
                ).subset_of(req_col_set(e@)) by {
                    assert(req_col_set(expr_view(lifted@[m])).subset_of(req_col_set(child)));
                }
            }
            if spec_no_list_map(e@) {
                assert(spec_no_list_map(child));
            }
        }
        j += 1;
    }
    proof {
        assert(full.skip(n as int) =~= Seq::<ExprModel>::empty());
        assert(walk_phase_two(
            full.skip(n as int),
            sn,
            pn,
            udf_count(full.take(n as int)),
            exprs_view(lifted@),
            *lm_seen,
        ) == (Seq::<ExprModel>::empty(), exprs_view(lifted@), *lm_seen));
        assert(exprs_view(out_args@) + Seq::<ExprModel>::empty() =~= exprs_view(out_args@));
        assert(exprs_view(out_args@) == walk_phase_two(full, sn, pn, 0, ph1acc, false).0);
        assert(exprs_view(lifted@) == walk_phase_two(full, sn, pn, 0, ph1acc, false).1);
        assert(*lm_seen == walk_phase_two(full, sn, pn, 0, ph1acc, false).2);
    }
    out_args
}

} // verus!
