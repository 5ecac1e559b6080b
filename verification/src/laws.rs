//! The laws the reconciliation engine obeys, stated over the same spec
//! functions its contracts use and proved once and for all.
use vstd::prelude::*;
use crate::entry::{EntryV, strip_suffix_dn, lookup_text, lookup_bin, lookup_entry};
use crate::text::{replace_seq, matches_at, ends_with};
use crate::values::{same_multiset, lower_all, count_seqs, dedup_seqs, lemma_count_pos, lemma_dedup_mem};
use crate::rewrite::{has_name, filter_not_in, replacement_values_spec, object_class_seq};
use crate::schema::Schema;
use crate::ops::{OperationV, TextModV, BinModV};
use crate::diff::{
    mod_value_spec,
    text_mods_altered,
    text_mods_removed,
    text_mods_spec,
    bin_mods_altered,
    bin_mods_removed,
    bin_mods_spec,
    diff_altered_ops,
    diff_added_ops,
    diff_spec,
};
use crate::dn::{dn_is_ancestor, dn_cmp, lemma_ancestor_orders_first, lemma_cmp_rdn_lists_antisym};
use crate::plan::{
    is_sorted_plan_of,
    adds_of,
    mods_of,
    dels_of,
    lemma_partition_len,
    lemma_mods_of_all_mods,
};

verus! {

/// The key an entry is stored under, concatenated with a comma and the base
/// DN, is exactly the DN the server returned.
pub proof fn lemma_stored_key_restores_dn(dn: Seq<char>, base: Seq<char>)
    requires
        strip_suffix_dn(dn, base) is Some,
    ensures
        strip_suffix_dn(dn, base)->0 + seq![','] + base == dn,
{
    let cut = dn.len() - base.len() - 1;
    assert(dn.skip(cut) == seq![','] + base);
    assert forall|t: int| 0 <= t < dn.len() implies (dn.take(cut) + seq![','] + base)[t]
        == dn[t] by {
        if t >= cut {
            assert(dn.skip(cut)[t - cut] == dn[t]);
        }
    }
    assert(dn.take(cut) + seq![','] + base =~= dn);
}

/// In a value that is a well-formed reference, the source base DN occurs
/// only as its suffix; rewriting replaces exactly that suffix with the
/// destination base DN, and nothing else of the value changes.
pub proof fn lemma_rewrite_reference_suffix(s: Seq<char>, from: Seq<char>, to: Seq<char>)
    requires
        from.len() > 0,
        ends_with(s, from),
        forall|i: int| 0 <= i < s.len() - from.len() ==> !matches_at(s, from, i),
    ensures
        replace_seq(s, from, to) == s.take(s.len() - from.len()) + to,
    decreases s.len(),
{
    if s.len() == from.len() {
        assert(s.skip(0) =~= s);
        assert(s == from);
        assert(matches_at(s, from, 0)) by {
            assert(s.subrange(0, from.len() as int) =~= s);
        }
        assert(s.skip(from.len() as int) =~= Seq::<char>::empty());
        assert(replace_seq(Seq::<char>::empty(), from, to) == Seq::<char>::empty());
        assert(to + Seq::<char>::empty() =~= to);
        assert(s.take(s.len() - from.len()) =~= Seq::<char>::empty());
        assert(Seq::<char>::empty() + to =~= to);
    } else {
        assert(s.len() > from.len());
        assert(!matches_at(s, from, 0));
        let rest = s.drop_first();
        assert(ends_with(rest, from)) by {
            assert(rest.skip(rest.len() - from.len()) =~= s.skip(s.len() - from.len()));
        }
        assert forall|i: int| 0 <= i < rest.len() - from.len() implies !matches_at(
            rest,
            from,
            i,
        ) by {
            if matches_at(rest, from, i) {
                assert(matches_at(s, from, i + 1)) by {
                    assert(s.subrange(i + 1, i + 1 + from.len()) =~= rest.subrange(
                        i,
                        i + from.len(),
                    ));
                }
            }
        }
        lemma_rewrite_reference_suffix(rest, from, to);
        assert(replace_seq(s, from, to) == seq![s[0]] + replace_seq(rest, from, to));
        assert(seq![s[0]] + (rest.take(rest.len() - from.len()) + to) =~= s.take(
            s.len() - from.len(),
        ) + to);
    }
}

/// When the schema declares the attribute's equality rule case-insensitive
/// and the two sides' value sets agree after case folding, no modification
/// is emitted for the attribute.
pub proof fn lemma_case_fold_no_mod(
    attr: Seq<char>,
    se: EntryV,
    de: EntryV,
    schema: Schema,
    src_base: Seq<char>,
    dst_base: Seq<char>,
    ignore_oc: Seq<Seq<char>>,
    svs: Seq<Seq<char>>,
    dvs: Seq<Seq<char>>,
)
    requires
        schema.case_insensitive_of(attr),
        lookup_text(se.attrs, attr) == Some(svs),
        lookup_text(de.attrs, attr) == Some(dvs),
        same_multiset(
            lower_all(
                replacement_values_spec(
                    svs,
                    attr == object_class_seq(),
                    ignore_oc,
                    schema.dn_syntax_of(attr),
                    src_base,
                    dst_base,
                ),
            ),
            lower_all(dvs),
        ),
    ensures
        mod_value_spec(attr, se, schema, src_base, Some(de), dst_base, ignore_oc) is None,
{
}

/// When the two sides already hold the same value set, no modification is
/// emitted for the attribute; in particular a value set that the destination
/// holds in another order is left alone.
pub proof fn lemma_same_values_no_mod(
    attr: Seq<char>,
    se: EntryV,
    de: EntryV,
    schema: Schema,
    src_base: Seq<char>,
    dst_base: Seq<char>,
    ignore_oc: Seq<Seq<char>>,
    svs: Seq<Seq<char>>,
    dvs: Seq<Seq<char>>,
)
    requires
        lookup_text(se.attrs, attr) == Some(svs),
        lookup_text(de.attrs, attr) == Some(dvs),
        same_multiset(
            replacement_values_spec(
                svs,
                attr == object_class_seq(),
                ignore_oc,
                schema.dn_syntax_of(attr),
                src_base,
                dst_base,
            ),
            dvs,
        ),
    ensures
        mod_value_spec(attr, se, schema, src_base, Some(de), dst_base, ignore_oc) is None,
{
}

/// In a sorted plan, an Add operation stands in the leading Add section.
proof fn lemma_add_position(input: Seq<OperationV>, out: Seq<OperationV>, i: int)
    requires
        is_sorted_plan_of(input, out),
        0 <= i < out.len(),
        out[i] is Add,
    ensures
        i < adds_of(input).len(),
{
    let na = adds_of(input).len() as int;
    let nm = mods_of(input).len() as int;
    lemma_partition_len(input);
    lemma_mods_of_all_mods(input);
    if na <= i < na + nm {
        assert(out.subrange(na, na + nm)[i - na] == out[i]);
        assert(mods_of(input)[i - na] is Modify);
    }
}

/// In a sorted plan, every Add on an ancestor precedes every Add on one of
/// its descendants: parents are created before their children.
pub proof fn lemma_adds_parent_first(
    input: Seq<OperationV>,
    out: Seq<OperationV>,
    i: int,
    j: int,
)
    requires
        is_sorted_plan_of(input, out),
        0 <= i < out.len(),
        0 <= j < out.len(),
        out[i] is Add,
        out[j] is Add,
        dn_is_ancestor(out[i].rdn(), out[j].rdn()),
    ensures
        i < j,
{
    let na = adds_of(input).len() as int;
    lemma_add_position(input, out, i);
    lemma_add_position(input, out, j);
    lemma_ancestor_orders_first(
        crate::dn::split_rdns(out[i].rdn()),
        crate::dn::split_rdns(out[j].rdn()),
    );
    lemma_cmp_rdn_lists_antisym(
        crate::dn::split_rdns(out[i].rdn()),
        crate::dn::split_rdns(out[j].rdn()),
    );
    if j < i {
        assert(dn_cmp(out[j].rdn(), out[i].rdn()) <= 0);
        assert(false);
    }
    if j == i {
        assert(dn_cmp(out[i].rdn(), out[j].rdn()) < 0);
        assert(false);
    }
}

/// In a sorted plan, every Delete on a descendant precedes every Delete on
/// one of its ancestors: children are removed before their parents.
pub proof fn lemma_deletes_child_first(
    input: Seq<OperationV>,
    out: Seq<OperationV>,
    i: int,
    j: int,
)
    requires
        is_sorted_plan_of(input, out),
        0 <= i < out.len(),
        0 <= j < out.len(),
        out[i] is Delete,
        out[j] is Delete,
        dn_is_ancestor(out[i].rdn(), out[j].rdn()),
    ensures
        j < i,
{
    let na = adds_of(input).len() as int;
    let nm = mods_of(input).len() as int;
    lemma_partition_len(input);
    lemma_mods_of_all_mods(input);
    assert(na + nm <= i) by {
        if i < na {
            assert(out[i] is Add);
        } else if i < na + nm {
            assert(out.subrange(na, na + nm)[i - na] == out[i]);
            assert(mods_of(input)[i - na] is Modify);
        }
    }
    assert(na + nm <= j) by {
        if j < na {
            assert(out[j] is Add);
        } else if j < na + nm {
            assert(out.subrange(na, na + nm)[j - na] == out[j]);
            assert(mods_of(input)[j - na] is Modify);
        }
    }
    lemma_ancestor_orders_first(
        crate::dn::split_rdns(out[i].rdn()),
        crate::dn::split_rdns(out[j].rdn()),
    );
    lemma_cmp_rdn_lists_antisym(
        crate::dn::split_rdns(out[i].rdn()),
        crate::dn::split_rdns(out[j].rdn()),
    );
    if i < j {
        assert(dn_cmp(out[i].rdn(), out[j].rdn()) >= 0);
        assert(false);
    }
    if i == j {
        assert(dn_cmp(out[i].rdn(), out[j].rdn()) < 0);
        assert(false);
    }
}

/// Whether a Modify operation carries at least one modification.
pub open spec fn modify_not_empty(op: OperationV) -> bool {
    match op {
        OperationV::Modify(_, ms, bs) => ms.len() + bs.len() > 0,
        _ => true,
    }
}

/// Every Modify that the differ emits carries at least one modification:
/// entries that already agree produce no operation at all.
pub proof fn lemma_modify_never_empty(
    src_list: Seq<EntryV>,
    dst_list: Seq<EntryV>,
    schema: Schema,
    src_base: Seq<char>,
    dst_base: Seq<char>,
    ignore_oc: Seq<Seq<char>>,
    ignore_attrs: Seq<Seq<char>>,
    add: bool,
    update: bool,
    delete: bool,
)
    ensures
        forall|k: int|
            0 <= k < diff_spec(
                src_list,
                dst_list,
                schema,
                src_base,
                dst_base,
                ignore_oc,
                ignore_attrs,
                add,
                update,
                delete,
            ).len() ==> modify_not_empty(
                #[trigger] diff_spec(
                    src_list,
                    dst_list,
                    schema,
                    src_base,
                    dst_base,
                    ignore_oc,
                    ignore_attrs,
                    add,
                    update,
                    delete,
                )[k],
            ),
{
    lemma_altered_modify_never_empty(
        dst_list,
        src_list,
        schema,
        src_base,
        dst_base,
        ignore_oc,
        ignore_attrs,
        update,
        delete,
    );
    lemma_added_all_adds(
        src_list,
        dst_list,
        schema,
        src_base,
        dst_base,
        ignore_oc,
        ignore_attrs,
        add,
    );
}

proof fn lemma_altered_modify_never_empty(
    dst_list: Seq<EntryV>,
    src_list: Seq<EntryV>,
    schema: Schema,
    src_base: Seq<char>,
    dst_base: Seq<char>,
    ignore_oc: Seq<Seq<char>>,
    ignore_attrs: Seq<Seq<char>>,
    update: bool,
    delete: bool,
)
    ensures
        forall|k: int|
            0 <= k < diff_altered_ops(
                dst_list,
                src_list,
                schema,
                src_base,
                dst_base,
                ignore_oc,
                ignore_attrs,
                update,
                delete,
            ).len() ==> modify_not_empty(
                #[trigger] diff_altered_ops(
                    dst_list,
                    src_list,
                    schema,
                    src_base,
                    dst_base,
                    ignore_oc,
                    ignore_attrs,
                    update,
                    delete,
                )[k],
            ),
    decreases dst_list.len(),
{
    if dst_list.len() > 0 {
        lemma_altered_modify_never_empty(
            dst_list.drop_last(),
            src_list,
            schema,
            src_base,
            dst_base,
            ignore_oc,
            ignore_attrs,
            update,
            delete,
        );
        let cur = diff_altered_ops(
            dst_list,
            src_list,
            schema,
            src_base,
            dst_base,
            ignore_oc,
            ignore_attrs,
            update,
            delete,
        );
        let rest = diff_altered_ops(
            dst_list.drop_last(),
            src_list,
            schema,
            src_base,
            dst_base,
            ignore_oc,
            ignore_attrs,
            update,
            delete,
        );
        assert forall|k: int| 0 <= k < cur.len() implies modify_not_empty(cur[k]) by {
            if k < rest.len() {
                assert(cur[k] == rest[k]);
            }
        }
    }
}

proof fn lemma_added_all_adds(
    src_list: Seq<EntryV>,
    dst_list: Seq<EntryV>,
    schema: Schema,
    src_base: Seq<char>,
    dst_base: Seq<char>,
    ignore_oc: Seq<Seq<char>>,
    ignore_attrs: Seq<Seq<char>>,
    add: bool,
)
    ensures
        forall|k: int|
            0 <= k < diff_added_ops(
                src_list,
                dst_list,
                schema,
                src_base,
                dst_base,
                ignore_oc,
                ignore_attrs,
                add,
            ).len() ==> (#[trigger] diff_added_ops(
                src_list,
                dst_list,
                schema,
                src_base,
                dst_base,
                ignore_oc,
                ignore_attrs,
                add,
            )[k]) is Add,
    decreases src_list.len(),
{
    if src_list.len() > 0 {
        lemma_added_all_adds(
            src_list.drop_last(),
            dst_list,
            schema,
            src_base,
            dst_base,
            ignore_oc,
            ignore_attrs,
            add,
        );
        let cur = diff_added_ops(
            src_list,
            dst_list,
            schema,
            src_base,
            dst_base,
            ignore_oc,
            ignore_attrs,
            add,
        );
        let rest = diff_added_ops(
            src_list.drop_last(),
            dst_list,
            schema,
            src_base,
            dst_base,
            ignore_oc,
            ignore_attrs,
            add,
        );
        assert forall|k: int| 0 <= k < cur.len() implies cur[k] is Add by {
            if k < rest.len() {
                assert(cur[k] == rest[k]);
            }
        }
    }
}

/// The attribute a textual modification names.
pub open spec fn text_mod_attr_of(m: TextModV) -> Seq<char> {
    OperationV::text_mod_attr(m)
}

/// No textual modification the differ emits names an ignored attribute.
pub proof fn lemma_text_mods_respect_ignores(
    se: EntryV,
    de: EntryV,
    schema: Schema,
    src_base: Seq<char>,
    dst_base: Seq<char>,
    ignore_oc: Seq<Seq<char>>,
    ignore_attrs: Seq<Seq<char>>,
)
    ensures
        forall|k: int|
            0 <= k < text_mods_spec(
                se,
                de,
                schema,
                src_base,
                dst_base,
                ignore_oc,
                ignore_attrs,
            ).len() ==> !has_name(
                ignore_attrs,
                text_mod_attr_of(
                    #[trigger] text_mods_spec(
                        se,
                        de,
                        schema,
                        src_base,
                        dst_base,
                        ignore_oc,
                        ignore_attrs,
                    )[k],
                ),
            ),
{
    lemma_text_mods_altered_ignores(
        de.attrs,
        se,
        de,
        schema,
        src_base,
        dst_base,
        ignore_oc,
        ignore_attrs,
    );
    lemma_text_mods_removed_ignores(
        se.attrs,
        de,
        schema,
        src_base,
        dst_base,
        ignore_oc,
        ignore_attrs,
    );
}

proof fn lemma_text_mods_altered_ignores(
    dav: Seq<(Seq<char>, Seq<Seq<char>>)>,
    se: EntryV,
    de: EntryV,
    schema: Schema,
    src_base: Seq<char>,
    dst_base: Seq<char>,
    ignore_oc: Seq<Seq<char>>,
    ignore_attrs: Seq<Seq<char>>,
)
    ensures
        forall|k: int|
            0 <= k < text_mods_altered(
                dav,
                se,
                de,
                schema,
                src_base,
                dst_base,
                ignore_oc,
                ignore_attrs,
            ).len() ==> !has_name(
                ignore_attrs,
                text_mod_attr_of(
                    #[trigger] text_mods_altered(
                        dav,
                        se,
                        de,
                        schema,
                        src_base,
                        dst_base,
                        ignore_oc,
                        ignore_attrs,
                    )[k],
                ),
            ),
    decreases dav.len(),
{
    if dav.len() > 0 {
        lemma_text_mods_altered_ignores(
            dav.drop_last(),
            se,
            de,
            schema,
            src_base,
            dst_base,
            ignore_oc,
            ignore_attrs,
        );
        let cur = text_mods_altered(dav, se, de, schema, src_base, dst_base, ignore_oc, ignore_attrs);
        let rest = text_mods_altered(
            dav.drop_last(),
            se,
            de,
            schema,
            src_base,
            dst_base,
            ignore_oc,
            ignore_attrs,
        );
        let (n, dvs) = dav.last();
        assert forall|k: int| 0 <= k < cur.len() implies !has_name(
            ignore_attrs,
            text_mod_attr_of(cur[k]),
        ) by {
            if k < rest.len() {
                assert(cur[k] == rest[k]);
            } else {
                lemma_mod_value_attr(n, se, schema, src_base, Some(de), dst_base, ignore_oc);
            }
        }
    }
}

/// The modification `mod_value_spec` yields always names the attribute it
/// was asked about.
pub proof fn lemma_mod_value_attr(
    attr: Seq<char>,
    se: EntryV,
    schema: Schema,
    src_base: Seq<char>,
    de: Option<EntryV>,
    dst_base: Seq<char>,
    ignore_oc: Seq<Seq<char>>,
)
    ensures
        match mod_value_spec(attr, se, schema, src_base, de, dst_base, ignore_oc) {
            Some(m) => text_mod_attr_of(m) == attr,
            None => true,
        },
{
}

proof fn lemma_text_mods_removed_ignores(
    sav: Seq<(Seq<char>, Seq<Seq<char>>)>,
    de: EntryV,
    schema: Schema,
    src_base: Seq<char>,
    dst_base: Seq<char>,
    ignore_oc: Seq<Seq<char>>,
    ignore_attrs: Seq<Seq<char>>,
)
    ensures
        forall|k: int|
            0 <= k < text_mods_removed(
                sav,
                de,
                schema,
                src_base,
                dst_base,
                ignore_oc,
                ignore_attrs,
            ).len() ==> !has_name(
                ignore_attrs,
                text_mod_attr_of(
                    #[trigger] text_mods_removed(
                        sav,
                        de,
                        schema,
                        src_base,
                        dst_base,
                        ignore_oc,
                        ignore_attrs,
                    )[k],
                ),
            ),
    decreases sav.len(),
{
    if sav.len() > 0 {
        lemma_text_mods_removed_ignores(
            sav.drop_last(),
            de,
            schema,
            src_base,
            dst_base,
            ignore_oc,
            ignore_attrs,
        );
        let cur = text_mods_removed(sav, de, schema, src_base, dst_base, ignore_oc, ignore_attrs);
        let rest = text_mods_removed(
            sav.drop_last(),
            de,
            schema,
            src_base,
            dst_base,
            ignore_oc,
            ignore_attrs,
        );
        assert forall|k: int| 0 <= k < cur.len() implies !has_name(
            ignore_attrs,
            text_mod_attr_of(cur[k]),
        ) by {
            if k < rest.len() {
                assert(cur[k] == rest[k]);
            }
        }
    }
}

/// No binary modification the differ emits names an ignored attribute.
pub proof fn lemma_bin_mods_respect_ignores(
    se: EntryV,
    de: EntryV,
    ignore_attrs: Seq<Seq<char>>,
)
    ensures
        forall|k: int|
            0 <= k < bin_mods_spec(se, de, ignore_attrs).len() ==> !has_name(
                ignore_attrs,
                OperationV::bin_mod_attr(#[trigger] bin_mods_spec(se, de, ignore_attrs)[k]),
            ),
{
    lemma_bin_mods_altered_ignores(de.bin_attrs, se, ignore_attrs);
    lemma_bin_mods_removed_ignores(se.bin_attrs, de, ignore_attrs);
}

proof fn lemma_bin_mods_altered_ignores(
    dav: Seq<(Seq<char>, Seq<Seq<u8>>)>,
    se: EntryV,
    ignore_attrs: Seq<Seq<char>>,
)
    ensures
        forall|k: int|
            0 <= k < bin_mods_altered(dav, se, ignore_attrs).len() ==> !has_name(
                ignore_attrs,
                OperationV::bin_mod_attr(#[trigger] bin_mods_altered(dav, se, ignore_attrs)[k]),
            ),
    decreases dav.len(),
{
    if dav.len() > 0 {
        lemma_bin_mods_altered_ignores(dav.drop_last(), se, ignore_attrs);
        let cur = bin_mods_altered(dav, se, ignore_attrs);
        let rest = bin_mods_altered(dav.drop_last(), se, ignore_attrs);
        assert forall|k: int| 0 <= k < cur.len() implies !has_name(
            ignore_attrs,
            OperationV::bin_mod_attr(cur[k]),
        ) by {
            if k < rest.len() {
                assert(cur[k] == rest[k]);
            }
        }
    }
}

proof fn lemma_bin_mods_removed_ignores(
    sav: Seq<(Seq<char>, Seq<Seq<u8>>)>,
    de: EntryV,
    ignore_attrs: Seq<Seq<char>>,
)
    ensures
        forall|k: int|
            0 <= k < bin_mods_removed(sav, de, ignore_attrs).len() ==> !has_name(
                ignore_attrs,
                OperationV::bin_mod_attr(#[trigger] bin_mods_removed(sav, de, ignore_attrs)[k]),
            ),
    decreases sav.len(),
{
    if sav.len() > 0 {
        lemma_bin_mods_removed_ignores(sav.drop_last(), de, ignore_attrs);
        let cur = bin_mods_removed(sav, de, ignore_attrs);
        let rest = bin_mods_removed(sav.drop_last(), de, ignore_attrs);
        assert forall|k: int| 0 <= k < cur.len() implies !has_name(
            ignore_attrs,
            OperationV::bin_mod_attr(cur[k]),
        ) by {
            if k < rest.len() {
                assert(cur[k] == rest[k]);
            }
        }
    }
}

/// No attribute of an entry built for an Add carries an ignored name.
pub proof fn lemma_transform_respects_ignores(
    av: Seq<(Seq<char>, Seq<Seq<char>>)>,
    ignore_attrs: Seq<Seq<char>>,
    ignore_oc: Seq<Seq<char>>,
    schema: Schema,
    src_base: Seq<char>,
    dst_base: Seq<char>,
)
    ensures
        forall|k: int|
            0 <= k < crate::rewrite::transform_text_attrs(
                av,
                ignore_attrs,
                ignore_oc,
                schema,
                src_base,
                dst_base,
            ).len() ==> !has_name(
                ignore_attrs,
                (#[trigger] crate::rewrite::transform_text_attrs(
                    av,
                    ignore_attrs,
                    ignore_oc,
                    schema,
                    src_base,
                    dst_base,
                )[k]).0,
            ),
    decreases av.len(),
{
    if av.len() > 0 {
        lemma_transform_respects_ignores(
            av.drop_last(),
            ignore_attrs,
            ignore_oc,
            schema,
            src_base,
            dst_base,
        );
        let cur = crate::rewrite::transform_text_attrs(
            av,
            ignore_attrs,
            ignore_oc,
            schema,
            src_base,
            dst_base,
        );
        let rest = crate::rewrite::transform_text_attrs(
            av.drop_last(),
            ignore_attrs,
            ignore_oc,
            schema,
            src_base,
            dst_base,
        );
        assert forall|k: int| 0 <= k < cur.len() implies !has_name(ignore_attrs, cur[k].0) by {
            if k < rest.len() {
                assert(cur[k] == rest[k]);
            }
        }
    }
}

/// No binary attribute of an entry built for an Add carries an ignored name.
pub proof fn lemma_filter_bin_attrs_respects_ignores(
    av: Seq<(Seq<char>, Seq<Seq<u8>>)>,
    ignore_attrs: Seq<Seq<char>>,
)
    ensures
        forall|k: int|
            0 <= k < crate::rewrite::filter_bin_attrs(av, ignore_attrs).len() ==> !has_name(
                ignore_attrs,
                (#[trigger] crate::rewrite::filter_bin_attrs(av, ignore_attrs)[k]).0,
            ),
    decreases av.len(),
{
    if av.len() > 0 {
        lemma_filter_bin_attrs_respects_ignores(av.drop_last(), ignore_attrs);
        let cur = crate::rewrite::filter_bin_attrs(av, ignore_attrs);
        let rest = crate::rewrite::filter_bin_attrs(av.drop_last(), ignore_attrs);
        assert forall|k: int| 0 <= k < cur.len() implies !has_name(ignore_attrs, cur[k].0) by {
            if k < rest.len() {
                assert(cur[k] == rest[k]);
            }
        }
    }
}

/// No value survives the object-class filter if it is an ignored class.
pub proof fn lemma_filter_excludes(vs: Seq<Seq<char>>, names: Seq<Seq<char>>)
    ensures
        forall|t: int|
            0 <= t < filter_not_in(vs, names).len() ==> !has_name(
                names,
                #[trigger] filter_not_in(vs, names)[t],
            ),
    decreases vs.len(),
{
    if vs.len() > 0 {
        lemma_filter_excludes(vs.drop_last(), names);
        let cur = filter_not_in(vs, names);
        let rest = filter_not_in(vs.drop_last(), names);
        assert forall|t: int| 0 <= t < cur.len() implies !has_name(names, cur[t]) by {
            if t < rest.len() {
                assert(cur[t] == rest[t]);
            }
        }
    }
}

/// Values of a deduplicated collection all occur in the collection it
/// was drawn from.
pub proof fn lemma_dedup_elements(vs: Seq<Seq<char>>, t: int)
    requires
        0 <= t < dedup_seqs(vs).len(),
    ensures
        count_seqs(vs, dedup_seqs(vs)[t]) > 0,
{
    lemma_count_pos(dedup_seqs(vs), dedup_seqs(vs)[t]);
    lemma_dedup_mem(vs, dedup_seqs(vs)[t]);
}

/// When the objectClass attribute is not DN-valued, no replacement value
/// set for it contains an ignored object class.
pub proof fn lemma_replacement_excludes_ignored_classes(
    svs: Seq<Seq<char>>,
    ignore_oc: Seq<Seq<char>>,
    src_base: Seq<char>,
    dst_base: Seq<char>,
)
    ensures
        forall|t: int|
            0 <= t < replacement_values_spec(
                svs,
                true,
                ignore_oc,
                false,
                src_base,
                dst_base,
            ).len() ==> !has_name(
                ignore_oc,
                #[trigger] replacement_values_spec(
                    svs,
                    true,
                    ignore_oc,
                    false,
                    src_base,
                    dst_base,
                )[t],
            ),
{
    let v1 = dedup_seqs(svs);
    let v2 = filter_not_in(v1, ignore_oc);
    let repl = replacement_values_spec(svs, true, ignore_oc, false, src_base, dst_base);
    assert(repl == dedup_seqs(v2));
    lemma_filter_excludes(v1, ignore_oc);
    assert forall|t: int| 0 <= t < repl.len() implies !has_name(ignore_oc, repl[t]) by {
        lemma_dedup_elements(v2, t);
        lemma_count_pos(v2, repl[t]);
        let w = choose|w: int| 0 <= w < v2.len() && v2[w] == repl[t];
        assert(!has_name(ignore_oc, v2[w]));
    }
}

/// No part of the operation names an ignored attribute: the mods of a
/// Modify act only on attributes that are not ignored, and an added entry
/// carries none of them.
pub open spec fn op_respects_ignores(op: OperationV, ignore_attrs: Seq<Seq<char>>) -> bool {
    match op {
        OperationV::Add(e) => {
            &&& forall|k: int|
                0 <= k < e.attrs.len() ==> !has_name(ignore_attrs, (#[trigger] e.attrs[k]).0)
            &&& forall|k: int|
                0 <= k < e.bin_attrs.len() ==> !has_name(
                    ignore_attrs,
                    (#[trigger] e.bin_attrs[k]).0,
                )
        },
        OperationV::Delete(_) => true,
        OperationV::Modify(_, ms, bs) => {
            &&& forall|k: int|
                0 <= k < ms.len() ==> !has_name(
                    ignore_attrs,
                    OperationV::text_mod_attr(#[trigger] ms[k]),
                )
            &&& forall|k: int|
                0 <= k < bs.len() ==> !has_name(
                    ignore_attrs,
                    OperationV::bin_mod_attr(#[trigger] bs[k]),
                )
        },
    }
}

/// No operation of the raw plan references an ignored attribute.
pub proof fn lemma_plan_respects_ignores(
    src_list: Seq<EntryV>,
    dst_list: Seq<EntryV>,
    schema: Schema,
    src_base: Seq<char>,
    dst_base: Seq<char>,
    ignore_oc: Seq<Seq<char>>,
    ignore_attrs: Seq<Seq<char>>,
    add: bool,
    update: bool,
    delete: bool,
)
    ensures
        forall|k: int|
            0 <= k < diff_spec(
                src_list,
                dst_list,
                schema,
                src_base,
                dst_base,
                ignore_oc,
                ignore_attrs,
                add,
                update,
                delete,
            ).len() ==> op_respects_ignores(
                #[trigger] diff_spec(
                    src_list,
                    dst_list,
                    schema,
                    src_base,
                    dst_base,
                    ignore_oc,
                    ignore_attrs,
                    add,
                    update,
                    delete,
                )[k],
                ignore_attrs,
            ),
{
    lemma_altered_respects_ignores(
        dst_list,
        src_list,
        schema,
        src_base,
        dst_base,
        ignore_oc,
        ignore_attrs,
        update,
        delete,
    );
    lemma_added_respects_ignores(
        src_list,
        dst_list,
        schema,
        src_base,
        dst_base,
        ignore_oc,
        ignore_attrs,
        add,
    );
}

proof fn lemma_altered_respects_ignores(
    dst_list: Seq<EntryV>,
    src_list: Seq<EntryV>,
    schema: Schema,
    src_base: Seq<char>,
    dst_base: Seq<char>,
    ignore_oc: Seq<Seq<char>>,
    ignore_attrs: Seq<Seq<char>>,
    update: bool,
    delete: bool,
)
    ensures
        forall|k: int|
            0 <= k < diff_altered_ops(
                dst_list,
                src_list,
                schema,
                src_base,
                dst_base,
                ignore_oc,
                ignore_attrs,
                update,
                delete,
            ).len() ==> op_respects_ignores(
                #[trigger] diff_altered_ops(
                    dst_list,
                    src_list,
                    schema,
                    src_base,
                    dst_base,
                    ignore_oc,
                    ignore_attrs,
                    update,
                    delete,
                )[k],
                ignore_attrs,
            ),
    decreases dst_list.len(),
{
    if dst_list.len() > 0 {
        lemma_altered_respects_ignores(
            dst_list.drop_last(),
            src_list,
            schema,
            src_base,
            dst_base,
            ignore_oc,
            ignore_attrs,
            update,
            delete,
        );
        let cur = diff_altered_ops(
            dst_list,
            src_list,
            schema,
            src_base,
            dst_base,
            ignore_oc,
            ignore_attrs,
            update,
            delete,
        );
        let rest = diff_altered_ops(
            dst_list.drop_last(),
            src_list,
            schema,
            src_base,
            dst_base,
            ignore_oc,
            ignore_attrs,
            update,
            delete,
        );
        let de = dst_list.last();
        assert forall|k: int| 0 <= k < cur.len() implies op_respects_ignores(
            cur[k],
            ignore_attrs,
        ) by {
            if k < rest.len() {
                assert(cur[k] == rest[k]);
            } else {
                match lookup_entry(src_list, de.rdn) {
                    Some(se) => {
                        lemma_text_mods_respect_ignores(
                            se,
                            de,
                            schema,
                            src_base,
                            dst_base,
                            ignore_oc,
                            ignore_attrs,
                        );
                        lemma_bin_mods_respect_ignores(se, de, ignore_attrs);
                    },
                    None => {},
                }
            }
        }
    }
}

proof fn lemma_added_respects_ignores(
    src_list: Seq<EntryV>,
    dst_list: Seq<EntryV>,
    schema: Schema,
    src_base: Seq<char>,
    dst_base: Seq<char>,
    ignore_oc: Seq<Seq<char>>,
    ignore_attrs: Seq<Seq<char>>,
    add: bool,
)
    ensures
        forall|k: int|
            0 <= k < diff_added_ops(
                src_list,
                dst_list,
                schema,
                src_base,
                dst_base,
                ignore_oc,
                ignore_attrs,
                add,
            ).len() ==> op_respects_ignores(
                #[trigger] diff_added_ops(
                    src_list,
                    dst_list,
                    schema,
                    src_base,
                    dst_base,
                    ignore_oc,
                    ignore_attrs,
                    add,
                )[k],
                ignore_attrs,
            ),
    decreases src_list.len(),
{
    if src_list.len() > 0 {
        lemma_added_respects_ignores(
            src_list.drop_last(),
            dst_list,
            schema,
            src_base,
            dst_base,
            ignore_oc,
            ignore_attrs,
            add,
        );
        let cur = diff_added_ops(
            src_list,
            dst_list,
            schema,
            src_base,
            dst_base,
            ignore_oc,
            ignore_attrs,
            add,
        );
        let rest = diff_added_ops(
            src_list.drop_last(),
            dst_list,
            schema,
            src_base,
            dst_base,
            ignore_oc,
            ignore_attrs,
            add,
        );
        let se = src_list.last();
        assert forall|k: int| 0 <= k < cur.len() implies op_respects_ignores(
            cur[k],
            ignore_attrs,
        ) by {
            if k < rest.len() {
                assert(cur[k] == rest[k]);
            } else {
                lemma_transform_respects_ignores(
                    se.attrs,
                    ignore_attrs,
                    ignore_oc,
                    schema,
                    src_base,
                    dst_base,
                );
                lemma_filter_bin_attrs_respects_ignores(se.bin_attrs, ignore_attrs);
            }
        }
    }
}

/// Every operation of a sorted plan comes from the raw plan, so a sorted
/// plan respects the ignore list whenever the raw plan does.
pub proof fn lemma_sorted_plan_respects_ignores(
    input: Seq<OperationV>,
    out: Seq<OperationV>,
    ignore_attrs: Seq<Seq<char>>,
)
    requires
        is_sorted_plan_of(input, out),
        forall|k: int|
            0 <= k < input.len() ==> op_respects_ignores(#[trigger] input[k], ignore_attrs),
    ensures
        forall|k: int| 0 <= k < out.len() ==> op_respects_ignores(#[trigger] out[k], ignore_attrs),
{
    broadcast use vstd::seq_lib::group_to_multiset_ensures;

    let adds = adds_of(input);
    let mods = mods_of(input);
    let dels = dels_of(input);
    let na = adds.len() as int;
    let nm = mods.len() as int;
    lemma_partition_len(input);
    lemma_parts_respect_ignores(input, ignore_attrs);
    assert forall|k: int| 0 <= k < out.len() implies op_respects_ignores(
        out[k],
        ignore_attrs,
    ) by {
        if k < na {
            let front = out.subrange(0, na);
            assert(front[k] == out[k]);
            assert(front.contains(out[k]));
            assert(front.to_multiset().count(out[k]) > 0);
            assert(adds.contains(out[k]));
            let i = choose|i: int| 0 <= i < adds.len() && adds[i] == out[k];
            assert(op_respects_ignores(adds[i], ignore_attrs));
        } else if k < na + nm {
            assert(out.subrange(na, na + nm)[k - na] == out[k]);
            assert(mods[k - na] == out[k]);
            assert(op_respects_ignores(mods[k - na], ignore_attrs));
        } else {
            let tail = out.subrange(na + nm, out.len() as int);
            assert(tail[k - na - nm] == out[k]);
            assert(tail.contains(out[k]));
            assert(tail.to_multiset().count(out[k]) > 0);
            assert(dels.contains(out[k]));
            let i = choose|i: int| 0 <= i < dels.len() && dels[i] == out[k];
            assert(op_respects_ignores(dels[i], ignore_attrs));
        }
    }
}

/// The three parts of the partition inherit the ignore-respect of the whole.
proof fn lemma_parts_respect_ignores(input: Seq<OperationV>, ignore_attrs: Seq<Seq<char>>)
    requires
        forall|k: int|
            0 <= k < input.len() ==> op_respects_ignores(#[trigger] input[k], ignore_attrs),
    ensures
        forall|k: int|
            0 <= k < adds_of(input).len() ==> op_respects_ignores(
                #[trigger] adds_of(input)[k],
                ignore_attrs,
            ),
        forall|k: int|
            0 <= k < mods_of(input).len() ==> op_respects_ignores(
                #[trigger] mods_of(input)[k],
                ignore_attrs,
            ),
        forall|k: int|
            0 <= k < dels_of(input).len() ==> op_respects_ignores(
                #[trigger] dels_of(input)[k],
                ignore_attrs,
            ),
    decreases input.len(),
{
    if input.len() > 0 {
        assert(forall|k: int|
            0 <= k < input.drop_last().len() ==> input.drop_last()[k] == input[k]);
        lemma_parts_respect_ignores(input.drop_last(), ignore_attrs);
        assert forall|k: int| 0 <= k < adds_of(input).len() implies op_respects_ignores(
            adds_of(input)[k],
            ignore_attrs,
        ) by {
            if k < adds_of(input.drop_last()).len() {
                assert(adds_of(input)[k] == adds_of(input.drop_last())[k]);
            } else {
                assert(adds_of(input)[k] == input.last());
            }
        }
        assert forall|k: int| 0 <= k < mods_of(input).len() implies op_respects_ignores(
            mods_of(input)[k],
            ignore_attrs,
        ) by {
            if k < mods_of(input.drop_last()).len() {
                assert(mods_of(input)[k] == mods_of(input.drop_last())[k]);
            } else {
                assert(mods_of(input)[k] == input.last());
            }
        }
        assert forall|k: int| 0 <= k < dels_of(input).len() implies op_respects_ignores(
            dels_of(input)[k],
            ignore_attrs,
        ) by {
            if k < dels_of(input.drop_last()).len() {
                assert(dels_of(input)[k] == dels_of(input.drop_last())[k]);
            } else {
                assert(dels_of(input)[k] == input.last());
            }
        }
    }
}

/// No two members of the collection are equal.
pub open spec fn distinct_seqs<T>(ss: Seq<Seq<T>>) -> bool {
    forall|i: int, j: int| 0 <= i < j < ss.len() ==> ss[i] != ss[j]
}

/// Attribute names of a textual attribute list are pairwise distinct.
pub open spec fn unique_text_names(av: Seq<(Seq<char>, Seq<Seq<char>>)>) -> bool {
    forall|i: int, j: int| 0 <= i < j < av.len() ==> av[i].0 != av[j].0
}

/// Attribute names of a binary attribute list are pairwise distinct.
pub open spec fn unique_bin_names(av: Seq<(Seq<char>, Seq<Seq<u8>>)>) -> bool {
    forall|i: int, j: int| 0 <= i < j < av.len() ==> av[i].0 != av[j].0
}

/// The values one attribute carries after crossing to the destination.
pub open spec fn transformed_values(
    vs: Seq<Seq<char>>,
    n: Seq<char>,
    ignore_oc: Seq<Seq<char>>,
    schema: Schema,
    src_base: Seq<char>,
    dst_base: Seq<char>,
) -> Seq<Seq<char>> {
    let v1 = if n == object_class_seq() {
        filter_not_in(vs, ignore_oc)
    } else {
        vs
    };
    if schema.dn_syntax_of(n) {
        crate::rewrite::rewrite_values(v1, src_base, dst_base)
    } else {
        v1
    }
}

/// A lookup succeeds exactly when some association carries the name.
pub proof fn lemma_lookup_text_some_iff(av: Seq<(Seq<char>, Seq<Seq<char>>)>, n: Seq<char>)
    ensures
        lookup_text(av, n) is Some <==> exists|i: int| 0 <= i < av.len() && av[i].0 == n,
    decreases av.len(),
{
    if av.len() > 0 {
        lemma_lookup_text_some_iff(av.drop_first(), n);
        if av[0].0 != n {
            if lookup_text(av, n) is Some {
                let i = choose|i: int|
                    0 <= i < av.drop_first().len() && av.drop_first()[i].0 == n;
                assert(av[i + 1].0 == n);
            }
            if exists|i: int| 0 <= i < av.len() && av[i].0 == n {
                let i = choose|i: int| 0 <= i < av.len() && av[i].0 == n;
                assert(av.drop_first()[i - 1].0 == n);
            }
        }
    }
}

/// In a list with unique names, a lookup by a member's name finds exactly
/// that member.
pub proof fn lemma_lookup_text_unique(av: Seq<(Seq<char>, Seq<Seq<char>>)>, k: int)
    requires
        unique_text_names(av),
        0 <= k < av.len(),
    ensures
        lookup_text(av, av[k].0) == Some(av[k].1),
    decreases av.len(),
{
    if k > 0 {
        assert(av[0].0 != av[k].0);
        assert(av.drop_first()[k - 1] == av[k]);
        assert(unique_text_names(av.drop_first())) by {
            assert(forall|i: int, j: int|
                0 <= i < j < av.drop_first().len() ==> av.drop_first()[i] == av[i + 1]
                    && av.drop_first()[j] == av[j + 1]);
        }
        lemma_lookup_text_unique(av.drop_first(), k - 1);
    }
}

pub proof fn lemma_lookup_bin_some_iff(av: Seq<(Seq<char>, Seq<Seq<u8>>)>, n: Seq<char>)
    ensures
        lookup_bin(av, n) is Some <==> exists|i: int| 0 <= i < av.len() && av[i].0 == n,
    decreases av.len(),
{
    if av.len() > 0 {
        lemma_lookup_bin_some_iff(av.drop_first(), n);
        if av[0].0 != n {
            if lookup_bin(av, n) is Some {
                let i = choose|i: int|
                    0 <= i < av.drop_first().len() && av.drop_first()[i].0 == n;
                assert(av[i + 1].0 == n);
            }
            if exists|i: int| 0 <= i < av.len() && av[i].0 == n {
                let i = choose|i: int| 0 <= i < av.len() && av[i].0 == n;
                assert(av.drop_first()[i - 1].0 == n);
            }
        }
    }
}

pub proof fn lemma_lookup_bin_unique(av: Seq<(Seq<char>, Seq<Seq<u8>>)>, k: int)
    requires
        unique_bin_names(av),
        0 <= k < av.len(),
    ensures
        lookup_bin(av, av[k].0) == Some(av[k].1),
    decreases av.len(),
{
    if k > 0 {
        assert(av[0].0 != av[k].0);
        assert(av.drop_first()[k - 1] == av[k]);
        assert(unique_bin_names(av.drop_first())) by {
            assert(forall|i: int, j: int|
                0 <= i < j < av.drop_first().len() ==> av.drop_first()[i] == av[i + 1]
                    && av.drop_first()[j] == av[j + 1]);
        }
        lemma_lookup_bin_unique(av.drop_first(), k - 1);
    }
}

/// Deduplication leaves a collection of pairwise-distinct values unchanged.
pub proof fn lemma_dedup_distinct<T>(ss: Seq<Seq<T>>)
    requires
        distinct_seqs(ss),
    ensures
        dedup_seqs(ss) == ss,
    decreases ss.len(),
{
    if ss.len() > 0 {
        assert(distinct_seqs(ss.drop_last())) by {
            assert(forall|i: int|
                0 <= i < ss.drop_last().len() ==> ss.drop_last()[i] == ss[i]);
        }
        lemma_dedup_distinct(ss.drop_last());
        lemma_count_pos(ss.drop_last(), ss.last());
        if count_seqs(ss.drop_last(), ss.last()) > 0 {
            let i = choose|i: int|
                0 <= i < ss.drop_last().len() && ss.drop_last()[i] == ss.last();
            assert(ss[i] == ss[ss.len() - 1]);
            assert(false);
        }
        assert(ss.drop_last().push(ss.last()) =~= ss);
    }
}

/// Appending one association changes a lookup only for a name not yet
/// present.
pub proof fn lemma_lookup_text_push(
    av: Seq<(Seq<char>, Seq<Seq<char>>)>,
    p: (Seq<char>, Seq<Seq<char>>),
    n: Seq<char>,
)
    ensures
        lookup_text(av.push(p), n) == (if lookup_text(av, n) is Some {
            lookup_text(av, n)
        } else if p.0 == n {
            Some(p.1)
        } else {
            None
        }),
    decreases av.len(),
{
    if av.len() == 0 {
        assert(av.push(p)[0] == p);
        assert(av.push(p).drop_first() =~= av);
    } else {
        assert(av.push(p)[0] == av[0]);
        assert(av.push(p).drop_first() =~= av.drop_first().push(p));
        lemma_lookup_text_push(av.drop_first(), p, n);
    }
}

pub proof fn lemma_lookup_bin_push(
    av: Seq<(Seq<char>, Seq<Seq<u8>>)>,
    p: (Seq<char>, Seq<Seq<u8>>),
    n: Seq<char>,
)
    ensures
        lookup_bin(av.push(p), n) == (if lookup_bin(av, n) is Some {
            lookup_bin(av, n)
        } else if p.0 == n {
            Some(p.1)
        } else {
            None
        }),
    decreases av.len(),
{
    if av.len() == 0 {
        assert(av.push(p)[0] == p);
        assert(av.push(p).drop_first() =~= av);
    } else {
        assert(av.push(p)[0] == av[0]);
        assert(av.push(p).drop_first() =~= av.drop_first().push(p));
        lemma_lookup_bin_push(av.drop_first(), p, n);
    }
}

/// What one member of a transformed attribute list looks like.
pub open spec fn transformed_member(
    av: Seq<(Seq<char>, Seq<Seq<char>>)>,
    p: (Seq<char>, Seq<Seq<char>>),
    ignore_attrs: Seq<Seq<char>>,
    ignore_oc: Seq<Seq<char>>,
    schema: Schema,
    src_base: Seq<char>,
    dst_base: Seq<char>,
) -> bool {
    &&& lookup_text(av, p.0) is Some
    &&& !has_name(ignore_attrs, p.0)
    &&& p.1 == transformed_values(
        lookup_text(av, p.0)->0,
        p.0,
        ignore_oc,
        schema,
        src_base,
        dst_base,
    )
}

/// The transformed attribute list of an entry: names stay unique and every
/// member is a non-ignored source attribute carrying its transformed values.
pub proof fn lemma_transform_elements(
    av: Seq<(Seq<char>, Seq<Seq<char>>)>,
    ignore_attrs: Seq<Seq<char>>,
    ignore_oc: Seq<Seq<char>>,
    schema: Schema,
    src_base: Seq<char>,
    dst_base: Seq<char>,
)
    requires
        unique_text_names(av),
    ensures
        ({
            let t = crate::rewrite::transform_text_attrs(
                av,
                ignore_attrs,
                ignore_oc,
                schema,
                src_base,
                dst_base,
            );
            &&& unique_text_names(t)
            &&& forall|k: int|
                0 <= k < t.len() ==> transformed_member(
                    av,
                    #[trigger] t[k],
                    ignore_attrs,
                    ignore_oc,
                    schema,
                    src_base,
                    dst_base,
                )
            &&& forall|n0: Seq<char>|
                #![trigger lookup_text(av, n0)]
                lookup_text(av, n0) is Some && !has_name(ignore_attrs, n0) ==> lookup_text(
                    t,
                    n0,
                ) is Some
        }),
    decreases av.len(),
{
    let t = crate::rewrite::transform_text_attrs(
        av,
        ignore_attrs,
        ignore_oc,
        schema,
        src_base,
        dst_base,
    );
    if av.len() > 0 {
        let prev = av.drop_last();
        let last = av.last();
        assert(unique_text_names(prev)) by {
            assert(forall|i: int| 0 <= i < prev.len() ==> prev[i] == av[i]);
        }
        lemma_transform_elements(prev, ignore_attrs, ignore_oc, schema, src_base, dst_base);
        let tp = crate::rewrite::transform_text_attrs(
            prev,
            ignore_attrs,
            ignore_oc,
            schema,
            src_base,
            dst_base,
        );
        assert(av =~= prev.push(last));
        assert forall|n0: Seq<char>| lookup_text(prev, n0) is Some implies #[trigger] lookup_text(
            av,
            n0,
        ) == lookup_text(prev, n0) by {
            lemma_lookup_text_push(prev, last, n0);
        }
        assert(lookup_text(prev, last.0) is None) by {
            lemma_lookup_text_some_iff(prev, last.0);
            if exists|i: int| 0 <= i < prev.len() && prev[i].0 == last.0 {
                let i = choose|i: int| 0 <= i < prev.len() && prev[i].0 == last.0;
                assert(av[i].0 == av[av.len() - 1].0);
                assert(false);
            }
        }
        lemma_lookup_text_push(prev, last, last.0);
        assert(lookup_text(av, last.0) == Some(last.1));
        assert forall|n0: Seq<char>|
            #![trigger lookup_text(av, n0)]
            lookup_text(av, n0) is Some && !has_name(ignore_attrs, n0) implies lookup_text(
            t,
            n0,
        ) is Some by {
            lemma_lookup_text_push(prev, last, n0);
            if lookup_text(prev, n0) is Some {
                assert(lookup_text(tp, n0) is Some);
                if t != tp {
                    let tv0 = transformed_values(
                        last.1,
                        last.0,
                        ignore_oc,
                        schema,
                        src_base,
                        dst_base,
                    );
                    lemma_lookup_text_push(tp, (last.0, tv0), n0);
                }
            } else {
                assert(n0 == last.0);
                assert(!has_name(ignore_attrs, last.0));
                let tv0 = transformed_values(
                    last.1,
                    last.0,
                    ignore_oc,
                    schema,
                    src_base,
                    dst_base,
                );
                assert(t == tp.push((last.0, tv0)));
                lemma_lookup_text_push(tp, (last.0, tv0), n0);
            }
        }
        if has_name(ignore_attrs, last.0) {
            assert(t == tp);
        } else {
            let tv = transformed_values(last.1, last.0, ignore_oc, schema, src_base, dst_base);
            assert(t == tp.push((last.0, tv)));
            assert forall|k: int| 0 <= k < t.len() implies transformed_member(
                av,
                #[trigger] t[k],
                ignore_attrs,
                ignore_oc,
                schema,
                src_base,
                dst_base,
            ) by {
                if k < tp.len() {
                    assert(t[k] == tp[k]);
                } else {
                    assert(t[k] == (last.0, tv));
                }
            }
            assert forall|i: int, j: int| 0 <= i < j < t.len() implies t[i].0 != t[j].0 by {
                if j < tp.len() {
                    assert(t[i] == tp[i] && t[j] == tp[j]);
                } else {
                    assert(t[i] == tp[i] && t[j].0 == last.0);
                    assert(lookup_text(prev, tp[i].0) is Some);
                }
            }
        }
    }
}

/// What one member of a filtered binary attribute list looks like.
pub open spec fn filtered_bin_member(
    av: Seq<(Seq<char>, Seq<Seq<u8>>)>,
    p: (Seq<char>, Seq<Seq<u8>>),
    ignore_attrs: Seq<Seq<char>>,
) -> bool {
    &&& lookup_bin(av, p.0) == Some(p.1)
    &&& !has_name(ignore_attrs, p.0)
}

/// The filtered binary attribute list of an entry: names stay unique and
/// every member is a non-ignored source attribute, unchanged.
pub proof fn lemma_filter_bin_elements(
    av: Seq<(Seq<char>, Seq<Seq<u8>>)>,
    ignore_attrs: Seq<Seq<char>>,
)
    requires
        unique_bin_names(av),
    ensures
        ({
            let t = crate::rewrite::filter_bin_attrs(av, ignore_attrs);
            &&& unique_bin_names(t)
            &&& forall|k: int|
                0 <= k < t.len() ==> filtered_bin_member(av, #[trigger] t[k], ignore_attrs)
            &&& forall|n0: Seq<char>|
                #![trigger lookup_bin(av, n0)]
                lookup_bin(av, n0) is Some && !has_name(ignore_attrs, n0) ==> lookup_bin(
                    t,
                    n0,
                ) is Some
        }),
    decreases av.len(),
{
    let t = crate::rewrite::filter_bin_attrs(av, ignore_attrs);
    if av.len() > 0 {
        let prev = av.drop_last();
        let last = av.last();
        assert(unique_bin_names(prev)) by {
            assert(forall|i: int| 0 <= i < prev.len() ==> prev[i] == av[i]);
        }
        lemma_filter_bin_elements(prev, ignore_attrs);
        let tp = crate::rewrite::filter_bin_attrs(prev, ignore_attrs);
        assert(av =~= prev.push(last));
        assert forall|n0: Seq<char>| lookup_bin(prev, n0) is Some implies #[trigger] lookup_bin(
            av,
            n0,
        ) == lookup_bin(prev, n0) by {
            lemma_lookup_bin_push(prev, last, n0);
        }
        assert(lookup_bin(prev, last.0) is None) by {
            lemma_lookup_bin_some_iff(prev, last.0);
            if exists|i: int| 0 <= i < prev.len() && prev[i].0 == last.0 {
                let i = choose|i: int| 0 <= i < prev.len() && prev[i].0 == last.0;
                assert(av[i].0 == av[av.len() - 1].0);
                assert(false);
            }
        }
        lemma_lookup_bin_push(prev, last, last.0);
        assert(lookup_bin(av, last.0) == Some(last.1));
        assert forall|n0: Seq<char>|
            #![trigger lookup_bin(av, n0)]
            lookup_bin(av, n0) is Some && !has_name(ignore_attrs, n0) implies lookup_bin(
            t,
            n0,
        ) is Some by {
            lemma_lookup_bin_push(prev, last, n0);
            if lookup_bin(prev, n0) is Some {
                assert(lookup_bin(tp, n0) is Some);
                if t != tp {
                    lemma_lookup_bin_push(tp, last, n0);
                }
            } else {
                assert(n0 == last.0);
                assert(!has_name(ignore_attrs, last.0));
                assert(t == tp.push(last));
                lemma_lookup_bin_push(tp, last, n0);
            }
        }
        if has_name(ignore_attrs, last.0) {
            assert(t == tp);
        } else {
            assert(t == tp.push(last));
            assert forall|k: int| 0 <= k < t.len() implies filtered_bin_member(
                av,
                #[trigger] t[k],
                ignore_attrs,
            ) by {
                if k < tp.len() {
                    assert(t[k] == tp[k]);
                } else {
                    assert(t[k] == last);
                }
            }
            assert forall|i: int, j: int| 0 <= i < j < t.len() implies t[i].0 != t[j].0 by {
                if j < tp.len() {
                    assert(t[i] == tp[i] && t[j] == tp[j]);
                } else {
                    assert(t[i] == tp[i] && t[j].0 == last.0);
                    assert(lookup_bin(prev, tp[i].0) is Some);
                }
            }
        }
    }
}

/// Every attribute of `dav` agrees with what the source prescribes at the
/// destination, so the altered walk emits nothing.
proof fn lemma_text_altered_converges(
    dav: Seq<(Seq<char>, Seq<Seq<char>>)>,
    se: EntryV,
    de: EntryV,
    schema: Schema,
    src_base: Seq<char>,
    dst_base: Seq<char>,
    ignore_oc: Seq<Seq<char>>,
    ignore_attrs: Seq<Seq<char>>,
)
    requires
        unique_text_names(se.attrs),
        forall|i: int| 0 <= i < se.attrs.len() ==> distinct_seqs((#[trigger] se.attrs[i]).1),
        forall|i: int|
            0 <= i < se.attrs.len() ==> distinct_seqs(
                transformed_values(
                    (#[trigger] se.attrs[i]).1,
                    se.attrs[i].0,
                    ignore_oc,
                    schema,
                    src_base,
                    dst_base,
                ),
            ),
        forall|k: int|
            0 <= k < dav.len() ==> transformed_member(
                se.attrs,
                #[trigger] dav[k],
                ignore_attrs,
                ignore_oc,
                schema,
                src_base,
                dst_base,
            ),
        forall|k: int|
            0 <= k < dav.len() ==> lookup_text(de.attrs, (#[trigger] dav[k]).0) == Some(dav[k].1),
    ensures
        text_mods_altered(dav, se, de, schema, src_base, dst_base, ignore_oc, ignore_attrs)
            == Seq::<TextModV>::empty(),
    decreases dav.len(),
{
    if dav.len() > 0 {
        assert(forall|k: int| 0 <= k < dav.drop_last().len() ==> dav.drop_last()[k] == dav[k]);
        lemma_text_altered_converges(
            dav.drop_last(),
            se,
            de,
            schema,
            src_base,
            dst_base,
            ignore_oc,
            ignore_attrs,
        );
        let (n, dvs) = dav.last();
        assert(transformed_member(
            se.attrs,
            dav[dav.len() - 1],
            ignore_attrs,
            ignore_oc,
            schema,
            src_base,
            dst_base,
        ));
        let vs = lookup_text(se.attrs, n)->0;
        if lookup_text(se.attrs, n) != Some(dvs) {
            lemma_lookup_text_some_iff(se.attrs, n);
            let i = choose|i: int| 0 <= i < se.attrs.len() && se.attrs[i].0 == n;
            lemma_lookup_text_unique(se.attrs, i);
            assert(se.attrs[i].1 == vs);
            assert(distinct_seqs(vs));
            assert(distinct_seqs(transformed_values(vs, n, ignore_oc, schema, src_base, dst_base)));
            lemma_dedup_distinct(vs);
            let tv = transformed_values(vs, n, ignore_oc, schema, src_base, dst_base);
            lemma_dedup_distinct(tv);
            let repl = replacement_values_spec(
                vs,
                n == object_class_seq(),
                ignore_oc,
                schema.dn_syntax_of(n),
                src_base,
                dst_base,
            );
            assert(repl == tv);
            assert(dvs == tv);
            assert(lookup_text(de.attrs, n) == Some(dvs));
            assert(same_multiset(repl, dvs));
            assert(mod_value_spec(n, se, schema, src_base, Some(de), dst_base, ignore_oc)
                is None);
        }
    }
}

/// Every non-ignored source attribute is present at the destination, so the
/// removed walk emits nothing.
proof fn lemma_text_removed_converges(
    sav: Seq<(Seq<char>, Seq<Seq<char>>)>,
    de: EntryV,
    schema: Schema,
    src_base: Seq<char>,
    dst_base: Seq<char>,
    ignore_oc: Seq<Seq<char>>,
    ignore_attrs: Seq<Seq<char>>,
)
    requires
        forall|k: int|
            0 <= k < sav.len() ==> has_name(ignore_attrs, (#[trigger] sav[k]).0) || lookup_text(
                de.attrs,
                sav[k].0,
            ) is Some,
    ensures
        text_mods_removed(sav, de, schema, src_base, dst_base, ignore_oc, ignore_attrs)
            == Seq::<TextModV>::empty(),
    decreases sav.len(),
{
    if sav.len() > 0 {
        assert(forall|k: int| 0 <= k < sav.drop_last().len() ==> sav.drop_last()[k] == sav[k]);
        lemma_text_removed_converges(
            sav.drop_last(),
            de,
            schema,
            src_base,
            dst_base,
            ignore_oc,
            ignore_attrs,
        );
        assert(has_name(ignore_attrs, sav[sav.len() - 1].0) || lookup_text(
            de.attrs,
            sav[sav.len() - 1].0,
        ) is Some);
    }
}

proof fn lemma_bin_altered_converges(
    dav: Seq<(Seq<char>, Seq<Seq<u8>>)>,
    se: EntryV,
    ignore_attrs: Seq<Seq<char>>,
)
    requires
        forall|k: int|
            0 <= k < dav.len() ==> lookup_bin(se.bin_attrs, (#[trigger] dav[k]).0) == Some(
                dav[k].1,
            ),
    ensures
        bin_mods_altered(dav, se, ignore_attrs) == Seq::<BinModV>::empty(),
    decreases dav.len(),
{
    if dav.len() > 0 {
        assert(forall|k: int| 0 <= k < dav.drop_last().len() ==> dav.drop_last()[k] == dav[k]);
        lemma_bin_altered_converges(dav.drop_last(), se, ignore_attrs);
        assert(lookup_bin(se.bin_attrs, dav[dav.len() - 1].0) == Some(dav[dav.len() - 1].1));
    }
}

proof fn lemma_bin_removed_converges(
    sav: Seq<(Seq<char>, Seq<Seq<u8>>)>,
    de: EntryV,
    ignore_attrs: Seq<Seq<char>>,
)
    requires
        forall|k: int|
            0 <= k < sav.len() ==> has_name(ignore_attrs, (#[trigger] sav[k]).0) || lookup_bin(
                de.bin_attrs,
                sav[k].0,
            ) is Some,
    ensures
        bin_mods_removed(sav, de, ignore_attrs) == Seq::<BinModV>::empty(),
    decreases sav.len(),
{
    if sav.len() > 0 {
        assert(forall|k: int| 0 <= k < sav.drop_last().len() ==> sav.drop_last()[k] == sav[k]);
        lemma_bin_removed_converges(sav.drop_last(), de, ignore_attrs);
        assert(has_name(ignore_attrs, sav[sav.len() - 1].0) || lookup_bin(
            de.bin_attrs,
            sav[sav.len() - 1].0,
        ) is Some);
    }
}

/// The reconciliation converges: once an Add has created an entry at the
/// destination, a second run finds nothing to change about it — its
/// modification lists are both empty, so not even a Modify is emitted.
/// This holds for entries whose attribute names are unique, whose values
/// are pairwise distinct, and whose values stay pairwise distinct after
/// object-class filtering and base-DN rewriting; a value set that the
/// rewriting merges is re-replaced on the next run.
pub proof fn lemma_added_entry_converges(
    se: EntryV,
    schema: Schema,
    src_base: Seq<char>,
    dst_base: Seq<char>,
    ignore_oc: Seq<Seq<char>>,
    ignore_attrs: Seq<Seq<char>>,
)
    requires
        unique_text_names(se.attrs),
        unique_bin_names(se.bin_attrs),
        forall|i: int| 0 <= i < se.attrs.len() ==> distinct_seqs((#[trigger] se.attrs[i]).1),
        forall|i: int|
            0 <= i < se.attrs.len() ==> distinct_seqs(
                transformed_values(
                    (#[trigger] se.attrs[i]).1,
                    se.attrs[i].0,
                    ignore_oc,
                    schema,
                    src_base,
                    dst_base,
                ),
            ),
    ensures
        text_mods_spec(
            se,
            crate::diff::transform_entry_view(
                se,
                ignore_attrs,
                ignore_oc,
                schema,
                src_base,
                dst_base,
            ),
            schema,
            src_base,
            dst_base,
            ignore_oc,
            ignore_attrs,
        ) == Seq::<TextModV>::empty(),
        bin_mods_spec(
            se,
            crate::diff::transform_entry_view(
                se,
                ignore_attrs,
                ignore_oc,
                schema,
                src_base,
                dst_base,
            ),
            ignore_attrs,
        ) == Seq::<BinModV>::empty(),
{
    let de = crate::diff::transform_entry_view(
        se,
        ignore_attrs,
        ignore_oc,
        schema,
        src_base,
        dst_base,
    );
    lemma_transform_elements(se.attrs, ignore_attrs, ignore_oc, schema, src_base, dst_base);
    lemma_filter_bin_elements(se.bin_attrs, ignore_attrs);
    assert forall|k: int| 0 <= k < de.attrs.len() implies lookup_text(
        de.attrs,
        (#[trigger] de.attrs[k]).0,
    ) == Some(de.attrs[k].1) by {
        lemma_lookup_text_unique(de.attrs, k);
    }
    lemma_text_altered_converges(
        de.attrs,
        se,
        de,
        schema,
        src_base,
        dst_base,
        ignore_oc,
        ignore_attrs,
    );
    assert forall|k: int|
        0 <= k < se.attrs.len() implies has_name(ignore_attrs, (#[trigger] se.attrs[k]).0)
        || lookup_text(de.attrs, se.attrs[k].0) is Some by {
        if !has_name(ignore_attrs, se.attrs[k].0) {
            lemma_lookup_text_unique(se.attrs, k);
        }
    }
    lemma_text_removed_converges(
        se.attrs,
        de,
        schema,
        src_base,
        dst_base,
        ignore_oc,
        ignore_attrs,
    );
    assert(text_mods_spec(se, de, schema, src_base, dst_base, ignore_oc, ignore_attrs)
        =~= Seq::<TextModV>::empty());
    assert forall|k: int| 0 <= k < de.bin_attrs.len() implies lookup_bin(
        se.bin_attrs,
        (#[trigger] de.bin_attrs[k]).0,
    ) == Some(de.bin_attrs[k].1) by {
        assert(filtered_bin_member(se.bin_attrs, de.bin_attrs[k], ignore_attrs));
    }
    lemma_bin_altered_converges(de.bin_attrs, se, ignore_attrs);
    assert forall|k: int|
        0 <= k < se.bin_attrs.len() implies has_name(ignore_attrs, (#[trigger] se.bin_attrs[k]).0)
        || lookup_bin(de.bin_attrs, se.bin_attrs[k].0) is Some by {
        if !has_name(ignore_attrs, se.bin_attrs[k].0) {
            lemma_lookup_bin_unique(se.bin_attrs, k);
        }
    }
    lemma_bin_removed_converges(se.bin_attrs, de, ignore_attrs);
    assert(bin_mods_spec(se, de, ignore_attrs) =~= Seq::<BinModV>::empty());
}

} // verus!
