//! Splitting a projection list into the current stage and the work that
//! remains for the stage below it.
//!
//! Each expression of the projection is truncated: an expression rooted at a
//! (possibly aliased) UDF has its computing arguments lifted out; an
//! expression with UDFs strictly below the root has those UDF children lifted
//! out; an expression without UDFs passes through unchanged, contributing
//! only the column references it reads. The lifted children and column
//! references are merged, once per name, in first-contribution order: they
//! form the projection the next stage must compute.

use vstd::prelude::*;

use crate::expr::{
    entry_lm_ok, expr_view, exprs_view, height_of, lemma_alias_chain_has_udf, lemma_exprs_view,
    lemma_has_udf_skip_implies_has_udf, lemma_max_height, lemma_names_set_prefix, max_height,
    name_of, names_of, names_set, req_col_set, req_cols, spec_alias_chain_is_udf, spec_has_udf,
    spec_has_udf_skip_lm, spec_no_list_map, spec_udf_args_simple, strs_view, Expr, ExprModel,
};
use crate::plan::{contains_name, distinct_names};
use crate::truncate::{
    lifted_item_ok, spec_truncate_root, spec_walk_children, truncate_root_udf,
    truncate_udf_children,
};

verus! {

/// Every entry of a projection list with a UDF outside `list_map` bodies is
/// an alias. The driver's entry aliasing establishes this before the first
/// split, and the splitter itself only emits aliases and column references
/// for the next stage.
pub open spec fn entries_aliased(entries: Seq<ExprModel>) -> bool {
    forall|i: int|
        0 <= i < entries.len() ==> (spec_has_udf_skip_lm(#[trigger] entries[i]) ==> entries[i]
            is Alias)
}

/// Every entry either has no UDF or is free of `list_map`: on such
/// projections the pass can always resolve the stages it builds.
pub open spec fn entries_lm_ok(entries: Seq<ExprModel>) -> bool {
    forall|i: int| 0 <= i < entries.len() ==> entry_lm_ok(#[trigger] entries[i])
}

/// What the splitter guarantees of the projection it emits for the next
/// stage: every expression is a bare column reference or an alias strictly
/// lower than the tallest entry of the current projection.
pub open spec fn remaining_item_ok(l: ExprModel, bound: nat) -> bool {
    l is Column || (l is Alias && height_of(l) < bound)
}

/// Appends to `acc` each expression of `items`, in order, whose name no
/// expression of `acc` already carries.
pub open spec fn merge_items(items: Seq<ExprModel>, acc: Seq<ExprModel>) -> Seq<ExprModel>
    decreases items,
{
    if items.len() == 0 {
        acc
    } else {
        let acc2 = if names_of(acc).contains(name_of(items[0])) {
            acc
        } else {
            acc.push(items[0])
        };
        merge_items(items.drop_first(), acc2)
    }
}

/// Appends to `acc` one column reference per name of `cols`, in order,
/// skipping names already carried by `acc`.
pub open spec fn merge_columns(cols: Seq<Seq<char>>, acc: Seq<ExprModel>) -> Seq<ExprModel>
    decreases cols,
{
    if cols.len() == 0 {
        acc
    } else {
        let acc2 = if names_of(acc).contains(cols[0]) {
            acc
        } else {
            acc.push(ExprModel::Column { name: cols[0] })
        };
        merge_columns(cols.drop_first(), acc2)
    }
}

/// The exact effect of splitting one entry at position `p` of stage `s`:
/// the truncated expression for the current stage and the grown next-stage
/// projection. An entry rooted (through aliases) at a UDF goes through
/// root-UDF truncation; an entry with a UDF strictly below its root goes
/// through child-UDF truncation; anything else passes through whole,
/// contributing only the columns it reads.
pub open spec fn spec_split_entry(e: ExprModel, s: nat, p: nat, rem: Seq<ExprModel>) -> (
    ExprModel,
    Seq<ExprModel>,
) {
    if spec_alias_chain_is_udf(e) {
        let tr = spec_truncate_root(e, s, p);
        (tr.0, merge_items(tr.1, rem))
    } else if spec_has_udf_skip_lm(e) {
        let w = spec_walk_children(e, s, p, Seq::<ExprModel>::empty(), false);
        (w.0, merge_items(w.1, rem))
    } else {
        (e, merge_columns(req_cols(e), rem))
    }
}

/// The exact effect of splitting the entries from position `p` on, folding
/// the next-stage projection left to right.
pub open spec fn spec_split_from(entries: Seq<ExprModel>, s: nat, p: nat, rem: Seq<ExprModel>) -> (
    Seq<ExprModel>,
    Seq<ExprModel>,
)
    decreases entries,
{
    if entries.len() == 0 {
        (Seq::<ExprModel>::empty(), rem)
    } else {
        let st = spec_split_entry(entries[0], s, p, rem);
        let rest = spec_split_from(entries.drop_first(), s, p + 1, st.1);
        (seq![st.0] + rest.0, rest.1)
    }
}

/// The exact effect of splitting a projection list at stage `s`.
pub open spec fn spec_split(entries: Seq<ExprModel>, s: nat) -> (Seq<ExprModel>, Seq<ExprModel>) {
    spec_split_from(entries, s, 0, Seq::<ExprModel>::empty())
}

/// Merges lifted expressions into the projection for the next stage,
/// skipping any whose name was already contributed. `seen` mirrors the names
/// of `remaining`, in order. Every lifted name ends up among the names of
/// `remaining`, and the merged items keep the lifted items' bounds on
/// referenced columns and `list_map` freedom.
#[verifier::loop_isolation(false)]
fn merge_lifted(
    lifted: &Vec<Expr>,
    seen: &mut Vec<String>,
    remaining: &mut Vec<Expr>,
    Ghost(bound): Ghost<nat>,
    Ghost(schema_set): Ghost<Set<Seq<char>>>,
    Ghost(lm_ok): Ghost<bool>,
)
    requires
        strs_view(old(seen)@) == names_of(exprs_view(old(remaining)@)),
        distinct_names(names_of(exprs_view(old(remaining)@))),
        forall|m: int|
            0 <= m < old(remaining)@.len() ==> remaining_item_ok(
                #[trigger] expr_view(old(remaining)@[m]),
                bound,
            ),
        forall|m: int|
            0 <= m < old(remaining)@.len() ==> req_col_set(
                #[trigger] expr_view(old(remaining)@[m]),
            ).subset_of(schema_set),
        lm_ok ==> forall|m: int|
            0 <= m < old(remaining)@.len() ==> entry_lm_ok(#[trigger] expr_view(old(remaining)@[m])),
        forall|m: int|
            0 <= m < lifted@.len() ==> remaining_item_ok(#[trigger] expr_view(lifted@[m]), bound),
        forall|m: int|
            0 <= m < lifted@.len() ==> req_col_set(#[trigger] expr_view(lifted@[m])).subset_of(
                schema_set,
            ),
        lm_ok ==> forall|m: int|
            0 <= m < lifted@.len() ==> entry_lm_ok(#[trigger] expr_view(lifted@[m])),
    ensures
        strs_view(final(seen)@) == names_of(exprs_view(final(remaining)@)),
        distinct_names(names_of(exprs_view(final(remaining)@))),
        forall|m: int|
            0 <= m < final(remaining)@.len() ==> remaining_item_ok(
                #[trigger] expr_view(final(remaining)@[m]),
                bound,
            ),
        forall|m: int|
            0 <= m < final(remaining)@.len() ==> req_col_set(
                #[trigger] expr_view(final(remaining)@[m]),
            ).subset_of(schema_set),
        lm_ok ==> forall|m: int|
            0 <= m < final(remaining)@.len() ==> entry_lm_ok(
                #[trigger] expr_view(final(remaining)@[m]),
            ),
        final(remaining)@.len() >= old(remaining)@.len(),
        forall|m: int| 0 <= m < old(remaining)@.len() ==> final(remaining)@[m] == old(remaining)@[m],
        forall|m: int|
            0 <= m < lifted@.len() ==> names_set(exprs_view(final(remaining)@)).contains(
                name_of(#[trigger] expr_view(lifted@[m])),
            ),
        exprs_view(final(remaining)@) == merge_items(
            exprs_view(lifted@),
            exprs_view(old(remaining)@),
        ),
{
    proof {
        lemma_exprs_view(lifted@);
    }
    let ghost lv = exprs_view(lifted@);
    let ghost rem0 = exprs_view(old(remaining)@);
    proof {
        assert(lv.skip(0) =~= lv);
    }
    let n = lifted.len();
    let mut i: usize = 0;
    while i < n
        invariant
            i <= n,
            lv == exprs_view(lifted@),
            lv.len() == n,
            rem0 == exprs_view(old(remaining)@),
            merge_items(lv.skip(i as int), exprs_view(remaining@)) == merge_items(lv, rem0),
            strs_view(seen@) == names_of(exprs_view(remaining@)),
            distinct_names(names_of(exprs_view(remaining@))),
            forall|m: int|
                0 <= m < remaining@.len() ==> remaining_item_ok(
                    #[trigger] expr_view(remaining@[m]),
                    bound,
                ),
            forall|m: int|
                0 <= m < remaining@.len() ==> req_col_set(
                    #[trigger] expr_view(remaining@[m]),
                ).subset_of(schema_set),
            lm_ok ==> forall|m: int|
                0 <= m < remaining@.len() ==> entry_lm_ok(#[trigger] expr_view(remaining@[m])),
            remaining@.len() >= old(remaining)@.len(),
            forall|m: int| 0 <= m < old(remaining)@.len() ==> remaining@[m] == old(remaining)@[m],
            forall|m: int|
                0 <= m < i ==> names_set(exprs_view(remaining@)).contains(
                    name_of(#[trigger] expr_view(lifted@[m])),
                ),
        decreases n - i,
    {
        let nm = lifted[i].name();
        let ghost pre_rem = remaining@;
        let ghost suf = lv.skip(i as int);
        proof {
            assert(suf.len() == n - i);
            assert(suf[0] == lv[i as int]);
            assert(lv[i as int] == expr_view(lifted@[i as int]));
            assert(suf.drop_first() =~= lv.skip(i as int + 1));
            assert(nm@ == name_of(suf[0]));
        }
        if !contains_name(seen, &nm) {
            let ghost old_names = names_of(exprs_view(remaining@));
            let item = lifted[i].clone();
            proof {
                assert(!names_of(exprs_view(pre_rem)).contains(name_of(suf[0])));
                assert(merge_items(suf, exprs_view(pre_rem)) == merge_items(
                    suf.drop_first(),
                    exprs_view(pre_rem).push(suf[0]),
                ));
            }
            seen.push(nm);
            remaining.push(item);
            proof {
                lemma_exprs_view(pre_rem);
                lemma_exprs_view(remaining@);
                assert(expr_view(item) == suf[0]);
                assert forall|a: int| 0 <= a < pre_rem.len() implies #[trigger] exprs_view(
                    remaining@,
                )[a] == exprs_view(pre_rem)[a] by {
                    assert(remaining@[a] == pre_rem[a]);
                }
                assert(names_of(exprs_view(remaining@)) =~= old_names + seq![
                    name_of(expr_view(lifted@[i as int])),
                ]);
                assert(strs_view(seen@) =~= names_of(exprs_view(remaining@)));
                assert forall|a: int, b: int|
                    0 <= a < b < names_of(exprs_view(remaining@)).len() implies names_of(
                    exprs_view(remaining@),
                )[a] != names_of(exprs_view(remaining@))[b] by {
                    if b < old_names.len() {
                    } else {
                        assert(names_of(exprs_view(remaining@))[b] == name_of(
                            expr_view(lifted@[i as int]),
                        ));
                        assert(!old_names.contains(name_of(expr_view(lifted@[i as int]))));
                        assert(names_of(exprs_view(remaining@))[a] == old_names[a]);
                    }
                }
                lemma_names_set_prefix(pre_rem, remaining@);
                assert(names_of(exprs_view(remaining@))[remaining@.len() - 1] == name_of(
                    expr_view(lifted@[i as int]),
                ));
                assert(names_set(exprs_view(remaining@)).contains(
                    name_of(expr_view(lifted@[i as int])),
                ));
            }
            proof {
                assert(exprs_view(remaining@) =~= exprs_view(pre_rem).push(suf[0]));
            }
        } else {
            proof {
                assert(names_of(exprs_view(remaining@)).contains(nm@));
                assert(names_set(exprs_view(remaining@)).contains(
                    name_of(expr_view(lifted@[i as int])),
                ));
                assert(merge_items(suf, exprs_view(pre_rem)) == merge_items(
                    suf.drop_first(),
                    exprs_view(pre_rem),
                ));
            }
        }
        i += 1;
    }
    proof {
        assert(lv.skip(n as int) =~= Seq::<ExprModel>::empty());
        assert(merge_items(lv.skip(n as int), exprs_view(remaining@)) == exprs_view(remaining@));
    }
}

/// Splits a projection list at stage `stage_idx` into the truncated
/// expressions of the current stage and the projection the next stage must
/// compute. The truncated list matches the input position for position and
/// name for name; the next-stage projection holds only aliases of lifted
/// sub-expressions and column references, with pairwise distinct names, in
/// first-contribution order, referencing only columns the entries themselves
/// reference. On entries whose UDFs stand clear of `list_map`, every column a
/// truncated expression reads is produced by the next stage, and a truncated
/// expression that still holds a UDF is a ready single-UDF stage.
#[verifier::loop_isolation(false)]
pub fn split_projection(
    projection: &Vec<Expr>,
    stage_idx: usize,
    Ghost(schema_set): Ghost<Set<Seq<char>>>,
) -> (res: (Vec<Expr>, Vec<Expr>))
    requires
        entries_aliased(exprs_view(projection@)),
        forall|i: int|
            0 <= i < projection@.len() ==> req_col_set(
                #[trigger] exprs_view(projection@)[i],
            ).subset_of(schema_set),
    ensures
        (exprs_view(res.0@), exprs_view(res.1@)) == spec_split(
            exprs_view(projection@),
            stage_idx as nat,
        ),
        res.0@.len() == projection@.len(),
        forall|i: int|
            0 <= i < projection@.len() ==> name_of(#[trigger] expr_view(res.0@[i])) == name_of(
                exprs_view(projection@)[i],
            ),
        forall|i: int|
            0 <= i < projection@.len() ==> (!spec_has_udf_skip_lm(exprs_view(projection@)[i])
                ==> #[trigger] expr_view(res.0@[i]) == exprs_view(projection@)[i]),
        forall|i: int|
            0 <= i < projection@.len() ==> (spec_alias_chain_is_udf(exprs_view(projection@)[i])
                ==> spec_alias_chain_is_udf(#[trigger] expr_view(res.0@[i]))
                && spec_udf_args_simple(expr_view(res.0@[i]))),
        forall|m: int|
            0 <= m < res.1@.len() ==> remaining_item_ok(
                #[trigger] expr_view(res.1@[m]),
                max_height(exprs_view(projection@)),
            ),
        distinct_names(names_of(exprs_view(res.1@))),
        forall|m: int|
            0 <= m < res.1@.len() ==> req_col_set(#[trigger] expr_view(res.1@[m])).subset_of(
                schema_set,
            ),
        entries_lm_ok(exprs_view(projection@)) ==> forall|m: int|
            0 <= m < res.1@.len() ==> entry_lm_ok(#[trigger] expr_view(res.1@[m])),
        entries_lm_ok(exprs_view(projection@)) ==> forall|i: int|
            0 <= i < projection@.len() ==> req_col_set(#[trigger] expr_view(res.0@[i])).subset_of(
                names_set(exprs_view(res.1@)),
            ),
        entries_lm_ok(exprs_view(projection@)) ==> forall|i: int|
            0 <= i < projection@.len() ==> (!spec_has_udf_skip_lm(#[trigger] expr_view(res.0@[i]))
                || (spec_alias_chain_is_udf(expr_view(res.0@[i])) && spec_udf_args_simple(
                expr_view(res.0@[i]),
            ))),
        forall|i: int|
            0 <= i < projection@.len() ==> (spec_alias_chain_is_udf(#[trigger] expr_view(res.0@[i]))
                ==> spec_udf_args_simple(expr_view(res.0@[i]))),
{
    proof {
        lemma_exprs_view(projection@);
        lemma_max_height(exprs_view(projection@));
    }
    let ghost bound = max_height(exprs_view(projection@));
    let ghost lm_ok = entries_lm_ok(exprs_view(projection@));
    let ghost sn = stage_idx as nat;
    let ghost evs = exprs_view(projection@);
    let n = projection.len();
    let mut truncated: Vec<Expr> = Vec::new();
    let mut seen: Vec<String> = Vec::new();
    let mut remaining: Vec<Expr> = Vec::new();
    proof {
        assert(strs_view(seen@) =~= names_of(exprs_view(remaining@)));
        assert(evs.skip(0) =~= evs);
        assert(exprs_view(truncated@) =~= Seq::<ExprModel>::empty());
        assert(exprs_view(remaining@) =~= Seq::<ExprModel>::empty());
        assert(Seq::<ExprModel>::empty() + spec_split(evs, sn).0 =~= spec_split(evs, sn).0);
    }
    let mut i: usize = 0;
    while i < n
        invariant
            i <= n,
            evs == exprs_view(projection@),
            evs.len() == n,
            sn == stage_idx as nat,
            exprs_view(truncated@) + spec_split_from(
                evs.skip(i as int),
                sn,
                i as nat,
                exprs_view(remaining@),
            ).0 == spec_split(evs, sn).0,
            spec_split_from(evs.skip(i as int), sn, i as nat, exprs_view(remaining@)).1
                == spec_split(evs, sn).1,
            truncated@.len() == i,
            forall|j: int|
                0 <= j < i ==> name_of(#[trigger] expr_view(truncated@[j])) == name_of(
                    exprs_view(projection@)[j],
                ),
            forall|j: int|
                0 <= j < i ==> (!spec_has_udf_skip_lm(exprs_view(projection@)[j])
                    ==> #[trigger] expr_view(truncated@[j]) == exprs_view(projection@)[j]),
            forall|j: int|
                0 <= j < i ==> (spec_alias_chain_is_udf(exprs_view(projection@)[j])
                    ==> spec_alias_chain_is_udf(#[trigger] expr_view(truncated@[j]))
                    && spec_udf_args_simple(expr_view(truncated@[j]))),
            lm_ok ==> forall|j: int|
                0 <= j < i ==> req_col_set(#[trigger] expr_view(truncated@[j])).subset_of(
                    names_set(exprs_view(remaining@)),
                ),
            lm_ok ==> forall|j: int|
                0 <= j < i ==> (!spec_has_udf_skip_lm(#[trigger] expr_view(truncated@[j])) || (
                spec_alias_chain_is_udf(expr_view(truncated@[j])) && spec_udf_args_simple(
                    expr_view(truncated@[j]),
                ))),
            forall|j: int|
                0 <= j < i ==> (spec_alias_chain_is_udf(#[trigger] expr_view(truncated@[j]))
                    ==> spec_udf_args_simple(expr_view(truncated@[j]))),
            strs_view(seen@) == names_of(exprs_view(remaining@)),
            distinct_names(names_of(exprs_view(remaining@))),
            forall|m: int|
                0 <= m < remaining@.len() ==> remaining_item_ok(
                    #[trigger] expr_view(remaining@[m]),
                    bound,
                ),
            forall|m: int|
                0 <= m < remaining@.len() ==> req_col_set(
                    #[trigger] expr_view(remaining@[m]),
                ).subset_of(schema_set),
            lm_ok ==> forall|m: int|
                0 <= m < remaining@.len() ==> entry_lm_ok(#[trigger] expr_view(remaining@[m])),
        decreases n - i,
    {
        let e = &projection[i];
        let ghost ev = exprs_view(projection@)[i as int];
        let ghost pre_rem = remaining@;
        let ghost pre_tr = truncated@;
        let ghost sufe = evs.skip(i as int);
        proof {
            assert(sufe.len() == n - i);
            assert(sufe[0] == evs[i as int]);
            assert(evs[i as int] == ev);
            assert(sufe.drop_first() =~= evs.skip(i as int + 1));
        }
        if e.alias_chain_is_udf() {
            proof {
                lemma_alias_chain_has_udf(ev);
                assert(ev is Alias);
                if lm_ok {
                    assert(entry_lm_ok(ev));
                    assert(spec_no_list_map(ev));
                }
            }
            let (t, lifted) = truncate_root_udf(e, stage_idx, i);
            proof {
                assert forall|m: int| 0 <= m < lifted@.len() implies remaining_item_ok(
                    #[trigger] expr_view(lifted@[m]),
                    bound,
                ) by {
                    assert(lifted_item_ok(expr_view(lifted@[m]), height_of(e@)));
                    assert(height_of(expr_view(lifted@[m])) < height_of(e@));
                }
                assert forall|m: int| 0 <= m < lifted@.len() implies req_col_set(
                    #[trigger] expr_view(lifted@[m]),
                ).subset_of(schema_set) by {
                    assert(req_col_set(expr_view(lifted@[m])).subset_of(req_col_set(ev)));
                }
                if lm_ok {
                    assert forall|m: int| 0 <= m < lifted@.len() implies entry_lm_ok(
                        #[trigger] expr_view(lifted@[m]),
                    ) by {
                        assert(spec_no_list_map(expr_view(lifted@[m])));
                    }
                }
            }
            truncated.push(t);
            merge_lifted(
                &lifted,
                &mut seen,
                &mut remaining,
                Ghost(bound),
                Ghost(schema_set),
                Ghost(lm_ok),
            );
            proof {
                lemma_names_set_prefix(pre_rem, remaining@);
                assert forall|x: Seq<char>| req_col_set(
                    expr_view(truncated@[i as int]),
                ).contains(x) implies names_set(exprs_view(remaining@)).contains(x) by {
                    assert(names_set(exprs_view(lifted@)).contains(x));
                    let m = choose|m: int|
                        0 <= m < names_of(exprs_view(lifted@)).len() && names_of(
                            exprs_view(lifted@),
                        )[m] == x;
                    lemma_exprs_view(lifted@);
                    assert(name_of(expr_view(lifted@[m])) == x);
                    assert(names_set(exprs_view(remaining@)).contains(x));
                }
                // The entry step matches the split model.
                let st = spec_split_entry(ev, sn, i as nat, exprs_view(pre_rem));
                assert(exprs_view(lifted@) == spec_truncate_root(ev, sn, i as nat).1);
                assert(expr_view(t) == spec_truncate_root(ev, sn, i as nat).0);
                assert(exprs_view(remaining@) == merge_items(
                    exprs_view(lifted@),
                    exprs_view(pre_rem),
                ));
                assert(st == (expr_view(t), exprs_view(remaining@)));
                assert(spec_split_from(sufe, sn, i as nat, exprs_view(pre_rem)) == (
                    seq![st.0] + spec_split_from(
                        sufe.drop_first(),
                        sn,
                        i as nat + 1,
                        st.1,
                    ).0,
                    spec_split_from(sufe.drop_first(), sn, i as nat + 1, st.1).1,
                ));
                lemma_exprs_view(truncated@);
                lemma_exprs_view(pre_tr);
                assert(exprs_view(truncated@) =~= exprs_view(pre_tr) + seq![st.0]);
                assert((exprs_view(pre_tr) + seq![st.0]) + spec_split_from(
                    evs.skip(i as int + 1),
                    sn,
                    i as nat + 1,
                    exprs_view(remaining@),
                ).0 =~= exprs_view(pre_tr) + (seq![st.0] + spec_split_from(
                    evs.skip(i as int + 1),
                    sn,
                    i as nat + 1,
                    exprs_view(remaining@),
                ).0));
            }
        } else if e.has_udf_skip_lm() {
            proof {
                assert(ev is Alias);
                if lm_ok {
                    assert(entry_lm_ok(ev));
                    assert(spec_no_list_map(ev));
                }
            }
            let mut lm_seen = false;
            let mut lifted: Vec<Expr> = Vec::new();
            let t = truncate_udf_children(e, stage_idx, i, &mut lm_seen, &mut lifted);
            proof {
                assert forall|m: int| 0 <= m < lifted@.len() implies remaining_item_ok(
                    #[trigger] expr_view(lifted@[m]),
                    bound,
                ) by {
                    assert(lifted_item_ok(expr_view(lifted@[m]), height_of(e@)));
                    assert(height_of(expr_view(lifted@[m])) < height_of(e@));
                }
                assert forall|m: int| 0 <= m < lifted@.len() implies req_col_set(
                    #[trigger] expr_view(lifted@[m]),
                ).subset_of(schema_set) by {
                    assert(req_col_set(expr_view(lifted@[m])).subset_of(req_col_set(ev)));
                }
                if lm_ok {
                    assert forall|m: int| 0 <= m < lifted@.len() implies entry_lm_ok(
                        #[trigger] expr_view(lifted@[m]),
                    ) by {
                        assert(spec_no_list_map(expr_view(lifted@[m])));
                    }
                    assert(!spec_has_udf(expr_view(t)));
                    lemma_no_skip_of_no_udf(expr_view(t));
                }
            }
            truncated.push(t);
            merge_lifted(
                &lifted,
                &mut seen,
                &mut remaining,
                Ghost(bound),
                Ghost(schema_set),
                Ghost(lm_ok),
            );
            proof {
                lemma_names_set_prefix(pre_rem, remaining@);
                if lm_ok {
                    assert forall|x: Seq<char>| req_col_set(
                        expr_view(truncated@[i as int]),
                    ).contains(x) implies names_set(exprs_view(remaining@)).contains(x) by {
                        assert(names_set(exprs_view(lifted@)).contains(x));
                        let m = choose|m: int|
                            0 <= m < names_of(exprs_view(lifted@)).len() && names_of(
                                exprs_view(lifted@),
                            )[m] == x;
                        lemma_exprs_view(lifted@);
                        assert(name_of(expr_view(lifted@[m])) == x);
                        assert(names_set(exprs_view(remaining@)).contains(x));
                    }
                }
                // The entry step matches the split model.
                let w = spec_walk_children(ev, sn, i as nat, Seq::<ExprModel>::empty(), false);
                assert(expr_view(t) == w.0 && exprs_view(lifted@) == w.1);
                let st = spec_split_entry(ev, sn, i as nat, exprs_view(pre_rem));
                assert(!spec_alias_chain_is_udf(ev));
                assert(spec_has_udf_skip_lm(ev));
                assert(exprs_view(remaining@) == merge_items(
                    exprs_view(lifted@),
                    exprs_view(pre_rem),
                ));
                assert(st == (expr_view(t), exprs_view(remaining@)));
                assert(spec_split_from(sufe, sn, i as nat, exprs_view(pre_rem)) == (
                    seq![st.0] + spec_split_from(
                        sufe.drop_first(),
                        sn,
                        i as nat + 1,
                        st.1,
                    ).0,
                    spec_split_from(sufe.drop_first(), sn, i as nat + 1, st.1).1,
                ));
                lemma_exprs_view(truncated@);
                lemma_exprs_view(pre_tr);
                assert(exprs_view(truncated@) =~= exprs_view(pre_tr) + seq![st.0]);
                assert((exprs_view(pre_tr) + seq![st.0]) + spec_split_from(
                    evs.skip(i as int + 1),
                    sn,
                    i as nat + 1,
                    exprs_view(remaining@),
                ).0 =~= exprs_view(pre_tr) + (seq![st.0] + spec_split_from(
                    evs.skip(i as int + 1),
                    sn,
                    i as nat + 1,
                    exprs_view(remaining@),
                ).0));
            }
        } else {
            truncated.push(e.clone());
            let req = e.required_columns();
            proof {
                lemma_exprs_view(remaining@);
            }
            let ghost rc = req_cols(ev);
            proof {
                assert(strs_view(req@) == rc);
                assert(rc.skip(0) =~= rc);
            }
            let m = req.len();
            let mut j: usize = 0;
            while j < m
                invariant
                    j <= m,
                    rc == req_cols(ev),
                    rc == strs_view(req@),
                    rc.len() == m,
                    merge_columns(rc.skip(j as int), exprs_view(remaining@)) == merge_columns(
                        rc,
                        exprs_view(pre_rem),
                    ),
                    strs_view(seen@) == names_of(exprs_view(remaining@)),
                    distinct_names(names_of(exprs_view(remaining@))),
                    forall|mm: int|
                        0 <= mm < remaining@.len() ==> remaining_item_ok(
                            #[trigger] expr_view(remaining@[mm]),
                            bound,
                        ),
                    forall|mm: int|
                        0 <= mm < remaining@.len() ==> req_col_set(
                            #[trigger] expr_view(remaining@[mm]),
                        ).subset_of(schema_set),
                    lm_ok ==> forall|mm: int|
                        0 <= mm < remaining@.len() ==> entry_lm_ok(
                            #[trigger] expr_view(remaining@[mm]),
                        ),
                    remaining@.len() >= pre_rem.len(),
                    forall|mm: int| 0 <= mm < pre_rem.len() ==> remaining@[mm] == pre_rem[mm],
                    forall|x: int|
                        0 <= x < j ==> names_set(exprs_view(remaining@)).contains(
                            #[trigger] strs_view(req@)[x],
                        ),
                decreases m - j,
            {
                let ghost mid_rem = remaining@;
                let ghost sufc = rc.skip(j as int);
                proof {
                    assert(sufc.len() == m - j);
                    assert(sufc[0] == rc[j as int]);
                    assert(rc[j as int] == strs_view(req@)[j as int]);
                    assert(strs_view(req@)[j as int] == req@[j as int]@);
                    assert(sufc.drop_first() =~= rc.skip(j as int + 1));
                }
                if !contains_name(&seen, &req[j]) {
                    let ghost old_names = names_of(exprs_view(remaining@));
                    proof {
                        assert(!names_of(exprs_view(mid_rem)).contains(sufc[0]));
                        assert(merge_columns(sufc, exprs_view(mid_rem)) == merge_columns(
                            sufc.drop_first(),
                            exprs_view(mid_rem).push(ExprModel::Column { name: sufc[0] }),
                        ));
                    }
                    let colexpr = Expr::Column(req[j].clone());
                    seen.push(req[j].clone());
                    remaining.push(colexpr);
                    proof {
                        lemma_exprs_view(mid_rem);
                        lemma_exprs_view(remaining@);
                        assert(expr_view(colexpr) == (ExprModel::Column { name: sufc[0] }));
                        assert(exprs_view(remaining@) =~= exprs_view(mid_rem).push(
                            ExprModel::Column { name: sufc[0] },
                        ));
                        assert forall|a: int| 0 <= a < mid_rem.len() implies #[trigger] exprs_view(
                            remaining@,
                        )[a] == exprs_view(mid_rem)[a] by {
                            assert(remaining@[a] == mid_rem[a]);
                        }
                        assert(names_of(exprs_view(remaining@)) =~= old_names + seq![
                            req@[j as int]@,
                        ]);
                        assert(strs_view(seen@) =~= names_of(exprs_view(remaining@)));
                        assert forall|a: int, b: int|
                            0 <= a < b < names_of(exprs_view(remaining@)).len() implies names_of(
                            exprs_view(remaining@),
                        )[a] != names_of(exprs_view(remaining@))[b] by {
                            if b < old_names.len() {
                            } else {
                                assert(names_of(exprs_view(remaining@))[b] == req@[j as int]@);
                                assert(!old_names.contains(req@[j as int]@));
                                assert(names_of(exprs_view(remaining@))[a] == old_names[a]);
                            }
                        }
                        // The pushed column reads exactly the entry's column.
                        assert(strs_view(req@) == req_cols(ev));
                        assert(strs_view(req@)[j as int] == req@[j as int]@);
                        assert(req_cols(ev).contains(req@[j as int]@));
                        assert(req_col_set(ev).contains(req@[j as int]@));
                        assert forall|x: Seq<char>| req_col_set(
                            expr_view(remaining@[remaining@.len() - 1]),
                        ).contains(x) implies schema_set.contains(x) by {
                            assert(x == req@[j as int]@);
                        }
                        lemma_names_set_prefix(mid_rem, remaining@);
                        assert(names_of(exprs_view(remaining@))[remaining@.len() - 1]
                            == req@[j as int]@);
                        assert(names_set(exprs_view(remaining@)).contains(req@[j as int]@));
                    }
                } else {
                    proof {
                        assert(names_of(exprs_view(remaining@)).contains(req@[j as int]@));
                        assert(names_set(exprs_view(remaining@)).contains(req@[j as int]@));
                        assert(merge_columns(sufc, exprs_view(mid_rem)) == merge_columns(
                            sufc.drop_first(),
                            exprs_view(mid_rem),
                        ));
                    }
                }
                j += 1;
            }
            proof {
                assert(rc.skip(m as int) =~= Seq::<Seq<char>>::empty());
                assert(merge_columns(rc.skip(m as int), exprs_view(remaining@)) == exprs_view(
                    remaining@,
                ));
                assert(exprs_view(remaining@) == merge_columns(rc, exprs_view(pre_rem)));
                // The entry step matches the split model.
                let st = spec_split_entry(ev, sn, i as nat, exprs_view(pre_rem));
                assert(!spec_alias_chain_is_udf(ev));
                assert(!spec_has_udf_skip_lm(ev));
                assert(st == (ev, exprs_view(remaining@)));
                assert(spec_split_from(sufe, sn, i as nat, exprs_view(pre_rem)) == (
                    seq![st.0] + spec_split_from(
                        sufe.drop_first(),
                        sn,
                        i as nat + 1,
                        st.1,
                    ).0,
                    spec_split_from(sufe.drop_first(), sn, i as nat + 1, st.1).1,
                ));
                lemma_exprs_view(truncated@);
                lemma_exprs_view(pre_tr);
                assert(expr_view(truncated@[i as int]) == ev);
                assert(exprs_view(truncated@) =~= exprs_view(pre_tr) + seq![st.0]);
                assert((exprs_view(pre_tr) + seq![st.0]) + spec_split_from(
                    evs.skip(i as int + 1),
                    sn,
                    i as nat + 1,
                    exprs_view(remaining@),
                ).0 =~= exprs_view(pre_tr) + (seq![st.0] + spec_split_from(
                    evs.skip(i as int + 1),
                    sn,
                    i as nat + 1,
                    exprs_view(remaining@),
                ).0));
            }
            proof {
                lemma_names_set_prefix(pre_rem, remaining@);
                assert forall|x: Seq<char>| req_col_set(
                    expr_view(truncated@[i as int]),
                ).contains(x) implies names_set(exprs_view(remaining@)).contains(x) by {
                    assert(req_col_set(ev).contains(x));
                    let kx = choose|kx: int|
                        0 <= kx < req_cols(ev).len() && req_cols(ev)[kx] == x;
                    assert(strs_view(req@)[kx] == x);
                }
            }
        }
        proof {
            // Everything already proven about earlier truncated entries stays
            // true as the remaining projection grows.
            lemma_names_set_prefix(pre_rem, remaining@);
            if lm_ok {
                assert forall|jj: int| 0 <= jj < i implies req_col_set(
                    #[trigger] expr_view(truncated@[jj]),
                ).subset_of(names_set(exprs_view(remaining@))) by {
                    assert(req_col_set(expr_view(truncated@[jj])).subset_of(
                        names_set(exprs_view(pre_rem)),
                    ));
                }
            }
        }
        i += 1;
    }
    proof {
        assert(evs.skip(n as int) =~= Seq::<ExprModel>::empty());
        assert(spec_split_from(
            evs.skip(n as int),
            sn,
            n as nat,
            exprs_view(remaining@),
        ) == (Seq::<ExprModel>::empty(), exprs_view(remaining@)));
        assert(exprs_view(truncated@) + Seq::<ExprModel>::empty() =~= exprs_view(truncated@));
        assert(exprs_view(truncated@) == spec_split(evs, sn).0);
        assert(exprs_view(remaining@) == spec_split(evs, sn).1);
    }
    (truncated, remaining)
}

/// An expression without any UDF has none outside `list_map` bodies either.
proof fn lemma_no_skip_of_no_udf(e: ExprModel)
    requires
        !spec_has_udf(e),
    ensures
        !spec_has_udf_skip_lm(e),
{
    if spec_has_udf_skip_lm(e) {
        lemma_has_udf_skip_implies_has_udf(e);
    }
}

} // verus!
