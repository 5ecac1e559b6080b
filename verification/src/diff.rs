//! The differ: computes, per attribute and per entry, the modifications and
//! operations that make the destination match the filtered source.
use vstd::prelude::*;
use crate::entry::{Entry, EntryV, EntryStore, lookup_text, lookup_bin, lookup_entry};
use crate::ops::{
    TextMod,
    TextModV,
    BinMod,
    BinModV,
    Operation,
    OperationV,
    op_views,
    text_mod_views,
    bin_mod_views,
    lemma_text_mod_views_push,
    lemma_bin_mod_views_push,
    lemma_op_views_push,
};
use crate::rewrite::{
    has_name,
    contains_str,
    is_object_class,
    object_class_seq,
    replacement_values,
    replacement_values_spec,
    transform_text_attrs,
    filter_bin_attrs,
    transform_entry,
};
use crate::schema::Schema;
use crate::values::{
    str_views,
    bin_views,
    same_multiset,
    lower_all,
    lowercase_all,
    values_equal_any_order,
    eq_str_values,
    eq_bin_values,
    dedup_seqs,
    dedup_bin_values,
};

verus! {

/// The modification that brings the destination's attribute `attr` in line
/// with the source entry: nothing when the two sides already hold the same
/// value set (exactly, or case-insensitively when the schema says so), a
/// replacement by the transformed source values otherwise, and a deletion
/// when the source does not have the attribute at all.
pub open spec fn mod_value_spec(
    attr: Seq<char>,
    se: EntryV,
    schema: Schema,
    src_base: Seq<char>,
    de: Option<EntryV>,
    dst_base: Seq<char>,
    ignore_oc: Seq<Seq<char>>,
) -> Option<TextModV> {
    match lookup_text(se.attrs, attr) {
        None => Some(TextModV::Delete(attr, Seq::empty())),
        Some(svs) => {
            let repl = replacement_values_spec(
                svs,
                attr == object_class_seq(),
                ignore_oc,
                schema.dn_syntax_of(attr),
                src_base,
                dst_base,
            );
            let keep = match de {
                Some(dev) => match lookup_text(dev.attrs, attr) {
                    Some(dvs) => same_multiset(repl, dvs) || (schema.case_insensitive_of(attr)
                        && same_multiset(lower_all(repl), lower_all(dvs))),
                    None => false,
                },
                None => false,
            };
            if keep {
                None
            } else {
                Some(TextModV::Replace(attr, repl))
            }
        },
    }
}

/// Computes the modification for one textual attribute, as `mod_value_spec`
/// prescribes.
pub fn mod_value(
    attr_name: &String,
    source_entry: &Entry,
    schema: &Schema,
    source_base: &String,
    destination_entry: Option<&Entry>,
    destination_base: &String,
    ignore_oc: &Vec<String>,
) -> (r: Option<TextMod>)
    ensures
        ({
            let s = mod_value_spec(
                attr_name@,
                source_entry@,
                *schema,
                source_base@,
                match destination_entry {
                    Some(d) => Some(d@),
                    None => None,
                },
                destination_base@,
                str_views(ignore_oc@),
            );
            match r {
                None => s is None,
                Some(m) => s == Some(m@),
            }
        }),
{
    match source_entry.get_attr(attr_name) {
        None => {
            let values: Vec<String> = Vec::new();
            proof {
                assert(str_views(values@) =~= Seq::<Seq<char>>::empty());
            }
            Some(TextMod::Delete { attr: attr_name.clone(), values })
        },
        Some(values) => {
            let is_oc = is_object_class(attr_name);
            let dn_syn = schema.is_dn_syntax(attr_name);
            let repl = replacement_values(
                values,
                is_oc,
                ignore_oc,
                dn_syn,
                source_base,
                destination_base,
            );
            let mut keep = false;
            match destination_entry {
                Some(de) => {
                    match de.get_attr(attr_name) {
                        Some(dvs) => {
                            if values_equal_any_order(&repl, dvs) {
                                keep = true;
                            } else if schema.is_case_insensitive(attr_name) {
                                let lr = lowercase_all(&repl);
                                let ld = lowercase_all(dvs);
                                if values_equal_any_order(&lr, &ld) {
                                    keep = true;
                                }
                            }
                        },
                        None => {},
                    }
                },
                None => {},
            }
            if keep {
                None
            } else {
                Some(TextMod::Replace { attr: attr_name.clone(), values: repl })
            }
        },
    }
}

/// The modifications drawn from the destination's textual attributes: one
/// per attribute that is not ignored and whose values differ from the
/// source's, in the destination's attribute order.
pub open spec fn text_mods_altered(
    dav: Seq<(Seq<char>, Seq<Seq<char>>)>,
    se: EntryV,
    de: EntryV,
    schema: Schema,
    src_base: Seq<char>,
    dst_base: Seq<char>,
    ignore_oc: Seq<Seq<char>>,
    ignore_attrs: Seq<Seq<char>>,
) -> Seq<TextModV>
    decreases dav.len(),
{
    if dav.len() == 0 {
        Seq::empty()
    } else {
        let rest = text_mods_altered(
            dav.drop_last(),
            se,
            de,
            schema,
            src_base,
            dst_base,
            ignore_oc,
            ignore_attrs,
        );
        let (n, dvs) = dav.last();
        if has_name(ignore_attrs, n) || lookup_text(se.attrs, n) == Some(dvs) {
            rest
        } else {
            match mod_value_spec(n, se, schema, src_base, Some(de), dst_base, ignore_oc) {
                None => rest,
                Some(m) => rest.push(m),
            }
        }
    }
}

/// The additions drawn from the source's textual attributes that the
/// destination lacks entirely, in the source's attribute order.
pub open spec fn text_mods_removed(
    sav: Seq<(Seq<char>, Seq<Seq<char>>)>,
    de: EntryV,
    schema: Schema,
    src_base: Seq<char>,
    dst_base: Seq<char>,
    ignore_oc: Seq<Seq<char>>,
    ignore_attrs: Seq<Seq<char>>,
) -> Seq<TextModV>
    decreases sav.len(),
{
    if sav.len() == 0 {
        Seq::empty()
    } else {
        let rest = text_mods_removed(
            sav.drop_last(),
            de,
            schema,
            src_base,
            dst_base,
            ignore_oc,
            ignore_attrs,
        );
        let (n, svs) = sav.last();
        if has_name(ignore_attrs, n) || lookup_text(de.attrs, n) is Some {
            rest
        } else {
            rest.push(
                TextModV::Add(
                    n,
                    replacement_values_spec(
                        svs,
                        n == object_class_seq(),
                        ignore_oc,
                        schema.dn_syntax_of(n),
                        src_base,
                        dst_base,
                    ),
                ),
            )
        }
    }
}

/// All textual modifications for one entry present on both sides.
pub open spec fn text_mods_spec(
    se: EntryV,
    de: EntryV,
    schema: Schema,
    src_base: Seq<char>,
    dst_base: Seq<char>,
    ignore_oc: Seq<Seq<char>>,
    ignore_attrs: Seq<Seq<char>>,
) -> Seq<TextModV> {
    text_mods_altered(de.attrs, se, de, schema, src_base, dst_base, ignore_oc, ignore_attrs)
        + text_mods_removed(se.attrs, de, schema, src_base, dst_base, ignore_oc, ignore_attrs)
}

/// The modifications drawn from the destination's binary attributes, in the
/// destination's attribute order: a replacement by the source's value set
/// where the source still has the attribute, a deletion where it does not.
pub open spec fn bin_mods_altered(
    dav: Seq<(Seq<char>, Seq<Seq<u8>>)>,
    se: EntryV,
    ignore_attrs: Seq<Seq<char>>,
) -> Seq<BinModV>
    decreases dav.len(),
{
    if dav.len() == 0 {
        Seq::empty()
    } else {
        let rest = bin_mods_altered(dav.drop_last(), se, ignore_attrs);
        let (n, dvs) = dav.last();
        if has_name(ignore_attrs, n) || lookup_bin(se.bin_attrs, n) == Some(dvs) {
            rest
        } else {
            match lookup_bin(se.bin_attrs, n) {
                Some(svs) => rest.push(BinModV::Replace(n, dedup_seqs(svs))),
                None => rest.push(BinModV::Delete(n, Seq::empty())),
            }
        }
    }
}

/// The additions drawn from the source's binary attributes that the
/// destination lacks entirely, in the source's attribute order.
pub open spec fn bin_mods_removed(
    sav: Seq<(Seq<char>, Seq<Seq<u8>>)>,
    de: EntryV,
    ignore_attrs: Seq<Seq<char>>,
) -> Seq<BinModV>
    decreases sav.len(),
{
    if sav.len() == 0 {
        Seq::empty()
    } else {
        let rest = bin_mods_removed(sav.drop_last(), de, ignore_attrs);
        let (n, svs) = sav.last();
        if has_name(ignore_attrs, n) || lookup_bin(de.bin_attrs, n) is Some {
            rest
        } else {
            rest.push(BinModV::Add(n, dedup_seqs(svs)))
        }
    }
}

/// All binary modifications for one entry present on both sides.
pub open spec fn bin_mods_spec(
    se: EntryV,
    de: EntryV,
    ignore_attrs: Seq<Seq<char>>,
) -> Seq<BinModV> {
    bin_mods_altered(de.bin_attrs, se, ignore_attrs) + bin_mods_removed(
        se.bin_attrs,
        de,
        ignore_attrs,
    )
}

/// Computes the textual modifications for one entry present on both sides.
pub fn text_mods_for(
    se: &Entry,
    de: &Entry,
    schema: &Schema,
    src_base: &String,
    dst_base: &String,
    ignore_oc: &Vec<String>,
    ignore_attrs: &Vec<String>,
) -> (r: Vec<TextMod>)
    ensures
        text_mod_views(r@) == text_mods_spec(
            se@,
            de@,
            *schema,
            src_base@,
            dst_base@,
            str_views(ignore_oc@),
            str_views(ignore_attrs@),
        ),
{
    let ghost igocv = str_views(ignore_oc@);
    let ghost igav = str_views(ignore_attrs@);
    let mut r: Vec<TextMod> = Vec::new();
    let mut i: usize = 0;
    proof {
        assert(text_mod_views(r@) =~= text_mods_altered(
            de@.attrs.take(0),
            se@,
            de@,
            *schema,
            src_base@,
            dst_base@,
            igocv,
            igav,
        ));
    }
    while i < de.attrs.len()
        invariant
            0 <= i <= de.attrs@.len(),
            igocv == str_views(ignore_oc@),
            igav == str_views(ignore_attrs@),
            de@.attrs.len() == de.attrs@.len(),
            text_mod_views(r@) == text_mods_altered(
                de@.attrs.take(i as int),
                se@,
                de@,
                *schema,
                src_base@,
                dst_base@,
                igocv,
                igav,
            ),
        decreases de.attrs@.len() - i,
    {
        let ghost pre = de@.attrs.take(i as int);
        proof {
            assert(de@.attrs.take(i + 1).drop_last() =~= pre);
            assert(de@.attrs.take(i + 1).last() == de@.attrs[i as int]);
            assert(de@.attrs[i as int] == (de.attrs@[i as int].name@, str_views(
                de.attrs@[i as int].values@,
            )));
        }
        let a = &de.attrs[i];
        if !contains_str(ignore_attrs, &a.name) {
            let same = match se.get_attr(&a.name) {
                Some(svs) => eq_str_values(svs, &a.values),
                None => false,
            };
            if !same {
                let m = mod_value(
                    &a.name,
                    se,
                    schema,
                    src_base,
                    Some(de),
                    dst_base,
                    ignore_oc,
                );
                match m {
                    Some(m) => {
                        let ghost old_r = r@;
                        let ghost mval = m;
                        r.push(m);
                        proof {
                            lemma_text_mod_views_push(old_r, mval);
                            assert(text_mod_views(r@) == text_mod_views(old_r).push(mval@));
                        }
                    },
                    None => {},
                }
            }
        }
        i = i + 1;
    }
    proof {
        assert(de@.attrs.take(de.attrs@.len() as int) =~= de@.attrs);
    }
    let ghost altered = text_mods_altered(
        de@.attrs,
        se@,
        de@,
        *schema,
        src_base@,
        dst_base@,
        igocv,
        igav,
    );
    let mut k: usize = 0;
    proof {
        assert(altered + text_mods_removed(
            se@.attrs.take(0),
            de@,
            *schema,
            src_base@,
            dst_base@,
            igocv,
            igav,
        ) =~= altered);
    }
    while k < se.attrs.len()
        invariant
            0 <= k <= se.attrs@.len(),
            igocv == str_views(ignore_oc@),
            igav == str_views(ignore_attrs@),
            se@.attrs.len() == se.attrs@.len(),
            altered == text_mods_altered(
                de@.attrs,
                se@,
                de@,
                *schema,
                src_base@,
                dst_base@,
                igocv,
                igav,
            ),
            text_mod_views(r@) == altered + text_mods_removed(
                se@.attrs.take(k as int),
                de@,
                *schema,
                src_base@,
                dst_base@,
                igocv,
                igav,
            ),
        decreases se.attrs@.len() - k,
    {
        let ghost pre = se@.attrs.take(k as int);
        proof {
            assert(se@.attrs.take(k + 1).drop_last() =~= pre);
            assert(se@.attrs.take(k + 1).last() == se@.attrs[k as int]);
            assert(se@.attrs[k as int] == (se.attrs@[k as int].name@, str_views(
                se.attrs@[k as int].values@,
            )));
        }
        let a = &se.attrs[k];
        if !contains_str(ignore_attrs, &a.name) {
            let absent = match de.get_attr(&a.name) {
                Some(_) => false,
                None => true,
            };
            if absent {
                let is_oc = is_object_class(&a.name);
                let dn_syn = schema.is_dn_syntax(&a.name);
                let vals = replacement_values(
                    &a.values,
                    is_oc,
                    ignore_oc,
                    dn_syn,
                    src_base,
                    dst_base,
                );
                let ghost old_r = r@;
                let m = TextMod::Add { attr: a.name.clone(), values: vals };
                let ghost mval = m;
                r.push(m);
                proof {
                    lemma_text_mod_views_push(old_r, mval);
                    assert(text_mod_views(r@) == text_mod_views(old_r).push(mval@));
                    assert(text_mod_views(old_r).push(mval@) =~= altered + text_mods_removed(
                        se@.attrs.take(k + 1),
                        de@,
                        *schema,
                        src_base@,
                        dst_base@,
                        igocv,
                        igav,
                    ));
                }
            }
        }
        k = k + 1;
    }
    proof {
        assert(se@.attrs.take(se.attrs@.len() as int) =~= se@.attrs);
    }
    r
}

/// Computes the binary modifications for one entry present on both sides.
pub fn bin_mods_for(se: &Entry, de: &Entry, ignore_attrs: &Vec<String>) -> (r: Vec<BinMod>)
    ensures
        bin_mod_views(r@) == bin_mods_spec(se@, de@, str_views(ignore_attrs@)),
{
    let ghost igav = str_views(ignore_attrs@);
    let mut r: Vec<BinMod> = Vec::new();
    let mut i: usize = 0;
    proof {
        assert(bin_mod_views(r@) =~= bin_mods_altered(de@.bin_attrs.take(0), se@, igav));
    }
    while i < de.bin_attrs.len()
        invariant
            0 <= i <= de.bin_attrs@.len(),
            igav == str_views(ignore_attrs@),
            de@.bin_attrs.len() == de.bin_attrs@.len(),
            bin_mod_views(r@) == bin_mods_altered(de@.bin_attrs.take(i as int), se@, igav),
        decreases de.bin_attrs@.len() - i,
    {
        let ghost pre = de@.bin_attrs.take(i as int);
        proof {
            assert(de@.bin_attrs.take(i + 1).drop_last() =~= pre);
            assert(de@.bin_attrs.take(i + 1).last() == de@.bin_attrs[i as int]);
            assert(de@.bin_attrs[i as int] == (de.bin_attrs@[i as int].name@, bin_views(
                de.bin_attrs@[i as int].values@,
            )));
        }
        let a = &de.bin_attrs[i];
        if !contains_str(ignore_attrs, &a.name) {
            match se.get_bin_attr(&a.name) {
                Some(svs) => {
                    if !eq_bin_values(svs, &a.values) {
                        let vals = dedup_bin_values(svs);
                        let ghost old_r = r@;
                        let m = BinMod::Replace { attr: a.name.clone(), values: vals };
                        let ghost mval = m;
                        r.push(m);
                        proof {
                            lemma_bin_mod_views_push(old_r, mval);
                            assert(bin_mod_views(r@) == bin_mod_views(old_r).push(mval@));
                        }
                    }
                },
                None => {
                    let vals: Vec<Vec<u8>> = Vec::new();
                    proof {
                        assert(bin_views(vals@) =~= Seq::<Seq<u8>>::empty());
                    }
                    let ghost old_r = r@;
                    let m = BinMod::Delete { attr: a.name.clone(), values: vals };
                    let ghost mval = m;
                    r.push(m);
                    proof {
                        lemma_bin_mod_views_push(old_r, mval);
                        assert(bin_mod_views(r@) == bin_mod_views(old_r).push(mval@));
                    }
                },
            }
        }
        i = i + 1;
    }
    proof {
        assert(de@.bin_attrs.take(de.bin_attrs@.len() as int) =~= de@.bin_attrs);
    }
    let ghost altered = bin_mods_altered(de@.bin_attrs, se@, igav);
    let mut k: usize = 0;
    proof {
        assert(altered + bin_mods_removed(se@.bin_attrs.take(0), de@, igav) =~= altered);
    }
    while k < se.bin_attrs.len()
        invariant
            0 <= k <= se.bin_attrs@.len(),
            igav == str_views(ignore_attrs@),
            se@.bin_attrs.len() == se.bin_attrs@.len(),
            altered == bin_mods_altered(de@.bin_attrs, se@, igav),
            bin_mod_views(r@) == altered + bin_mods_removed(
                se@.bin_attrs.take(k as int),
                de@,
                igav,
            ),
        decreases se.bin_attrs@.len() - k,
    {
        let ghost pre = se@.bin_attrs.take(k as int);
        proof {
            assert(se@.bin_attrs.take(k + 1).drop_last() =~= pre);
            assert(se@.bin_attrs.take(k + 1).last() == se@.bin_attrs[k as int]);
            assert(se@.bin_attrs[k as int] == (se.bin_attrs@[k as int].name@, bin_views(
                se.bin_attrs@[k as int].values@,
            )));
        }
        let a = &se.bin_attrs[k];
        if !contains_str(ignore_attrs, &a.name) {
            let absent = match de.get_bin_attr(&a.name) {
                Some(_) => false,
                None => true,
            };
            if absent {
                let vals = dedup_bin_values(&a.values);
                let ghost old_r = r@;
                let m = BinMod::Add { attr: a.name.clone(), values: vals };
                let ghost mval = m;
                r.push(m);
                proof {
                    lemma_bin_mod_views_push(old_r, mval);
                    assert(bin_mod_views(r@) == bin_mod_views(old_r).push(mval@));
                    assert(bin_mod_views(old_r).push(mval@) =~= altered + bin_mods_removed(
                        se@.bin_attrs.take(k + 1),
                        de@,
                        igav,
                    ));
                }
            }
        }
        k = k + 1;
    }
    proof {
        assert(se@.bin_attrs.take(se.bin_attrs@.len() as int) =~= se@.bin_attrs);
    }
    r
}

/// The shape of the entry added at the destination for a source entry.
pub open spec fn transform_entry_view(
    se: EntryV,
    ignore_attrs: Seq<Seq<char>>,
    ignore_oc: Seq<Seq<char>>,
    schema: Schema,
    src_base: Seq<char>,
    dst_base: Seq<char>,
) -> EntryV {
    EntryV {
        rdn: se.rdn,
        attrs: transform_text_attrs(se.attrs, ignore_attrs, ignore_oc, schema, src_base, dst_base),
        bin_attrs: filter_bin_attrs(se.bin_attrs, ignore_attrs),
    }
}

/// The operations drawn from the destination's entries, in store order: a
/// Modify for an entry on both sides whose modification list is not empty
/// (when updates are enabled), a Delete for an entry the source lacks (when
/// deletions are enabled).
pub open spec fn diff_altered_ops(
    dst_list: Seq<EntryV>,
    src_list: Seq<EntryV>,
    schema: Schema,
    src_base: Seq<char>,
    dst_base: Seq<char>,
    ignore_oc: Seq<Seq<char>>,
    ignore_attrs: Seq<Seq<char>>,
    update: bool,
    delete: bool,
) -> Seq<OperationV>
    decreases dst_list.len(),
{
    if dst_list.len() == 0 {
        Seq::empty()
    } else {
        let rest = diff_altered_ops(
            dst_list.drop_last(),
            src_list,
            schema,
            src_base,
            dst_base,
            ignore_oc,
            ignore_attrs,
            update,
            delete,
        );
        let de = dst_list.last();
        match lookup_entry(src_list, de.rdn) {
            Some(se) => {
                if update {
                    let ms = text_mods_spec(
                        se,
                        de,
                        schema,
                        src_base,
                        dst_base,
                        ignore_oc,
                        ignore_attrs,
                    );
                    let bs = bin_mods_spec(se, de, ignore_attrs);
                    if ms.len() == 0 && bs.len() == 0 {
                        rest
                    } else {
                        rest.push(OperationV::Modify(se.rdn, ms, bs))
                    }
                } else {
                    rest
                }
            },
            None => {
                if delete {
                    rest.push(OperationV::Delete(de.rdn))
                } else {
                    rest
                }
            },
        }
    }
}

/// The Add operations drawn from the source's entries that the destination
/// lacks, in store order, carrying the transformed entry (when additions
/// are enabled).
pub open spec fn diff_added_ops(
    src_list: Seq<EntryV>,
    dst_list: Seq<EntryV>,
    schema: Schema,
    src_base: Seq<char>,
    dst_base: Seq<char>,
    ignore_oc: Seq<Seq<char>>,
    ignore_attrs: Seq<Seq<char>>,
    add: bool,
) -> Seq<OperationV>
    decreases src_list.len(),
{
    if src_list.len() == 0 {
        Seq::empty()
    } else {
        let rest = diff_added_ops(
            src_list.drop_last(),
            dst_list,
            schema,
            src_base,
            dst_base,
            ignore_oc,
            ignore_attrs,
            add,
        );
        let se = src_list.last();
        if add && lookup_entry(dst_list, se.rdn) is None {
            rest.push(
                OperationV::Add(
                    transform_entry_view(se, ignore_attrs, ignore_oc, schema, src_base, dst_base),
                ),
            )
        } else {
            rest
        }
    }
}

/// The raw operation list of one reconciliation run, before ordering:
/// modifications and deletions in the destination's store order, then
/// additions in the source's store order.
pub open spec fn diff_spec(
    src_list: Seq<EntryV>,
    dst_list: Seq<EntryV>,
    schema: Schema,
    src_base: Seq<char>,
    dst_base: Seq<char>,
    ignore_oc: Seq<Seq<char>>,
    ignore_attrs: Seq<Seq<char>>,
    add: bool,
    update: bool,
    delete: bool,
) -> Seq<OperationV> {
    diff_altered_ops(
        dst_list,
        src_list,
        schema,
        src_base,
        dst_base,
        ignore_oc,
        ignore_attrs,
        update,
        delete,
    ) + diff_added_ops(
        src_list,
        dst_list,
        schema,
        src_base,
        dst_base,
        ignore_oc,
        ignore_attrs,
        add,
    )
}

/// Computes the raw operation list that makes the destination match the
/// source: per-entry modifications and deletions first, additions after,
/// each side walked in store order.
pub fn compute_operations(
    source: &EntryStore,
    destination: &EntryStore,
    source_base: &String,
    destination_base: &String,
    ignore_oc: &Vec<String>,
    ignore_attrs: &Vec<String>,
    schema: &Schema,
    add: bool,
    update: bool,
    delete: bool,
) -> (r: Vec<Operation>)
    ensures
        op_views(r@) == diff_spec(
            source@,
            destination@,
            *schema,
            source_base@,
            destination_base@,
            str_views(ignore_oc@),
            str_views(ignore_attrs@),
            add,
            update,
            delete,
        ),
{
    let ghost igocv = str_views(ignore_oc@);
    let ghost igav = str_views(ignore_attrs@);
    let mut r: Vec<Operation> = Vec::new();
    let mut i: usize = 0;
    proof {
        assert(op_views(r@) =~= diff_altered_ops(
            destination@.take(0),
            source@,
            *schema,
            source_base@,
            destination_base@,
            igocv,
            igav,
            update,
            delete,
        ));
    }
    while i < destination.entries.len()
        invariant
            0 <= i <= destination.entries@.len(),
            igocv == str_views(ignore_oc@),
            igav == str_views(ignore_attrs@),
            destination@.len() == destination.entries@.len(),
            op_views(r@) == diff_altered_ops(
                destination@.take(i as int),
                source@,
                *schema,
                source_base@,
                destination_base@,
                igocv,
                igav,
                update,
                delete,
            ),
        decreases destination.entries@.len() - i,
    {
        let ghost pre = destination@.take(i as int);
        proof {
            assert(destination@.take(i + 1).drop_last() =~= pre);
            assert(destination@.take(i + 1).last() == destination@[i as int]);
            assert(destination@[i as int] == destination.entries@[i as int]@);
        }
        let de = &destination.entries[i];
        match source.get(&de.rdn) {
            Some(se) => {
                if update {
                    let ms = text_mods_for(
                        se,
                        de,
                        schema,
                        source_base,
                        destination_base,
                        ignore_oc,
                        ignore_attrs,
                    );
                    let bs = bin_mods_for(se, de, ignore_attrs);
                    if !(ms.len() == 0 && bs.len() == 0) {
                        let ghost old_r = r@;
                        let op = Operation::Modify {
                            rdn: se.rdn.clone(),
                            mods: ms,
                            bin_mods: bs,
                        };
                        let ghost opval = op;
                        r.push(op);
                        proof {
                            lemma_op_views_push(old_r, opval);
                        }
                    }
                }
            },
            None => {
                if delete {
                    let ghost old_r = r@;
                    let op = Operation::Delete { rdn: de.rdn.clone() };
                    let ghost opval = op;
                    r.push(op);
                    proof {
                        lemma_op_views_push(old_r, opval);
                    }
                }
            },
        }
        i = i + 1;
    }
    proof {
        assert(destination@.take(destination.entries@.len() as int) =~= destination@);
    }
    let ghost altered = diff_altered_ops(
        destination@,
        source@,
        *schema,
        source_base@,
        destination_base@,
        igocv,
        igav,
        update,
        delete,
    );
    let mut k: usize = 0;
    proof {
        assert(altered + diff_added_ops(
            source@.take(0),
            destination@,
            *schema,
            source_base@,
            destination_base@,
            igocv,
            igav,
            add,
        ) =~= altered);
    }
    while k < source.entries.len()
        invariant
            0 <= k <= source.entries@.len(),
            igocv == str_views(ignore_oc@),
            igav == str_views(ignore_attrs@),
            source@.len() == source.entries@.len(),
            altered == diff_altered_ops(
                destination@,
                source@,
                *schema,
                source_base@,
                destination_base@,
                igocv,
                igav,
                update,
                delete,
            ),
            op_views(r@) == altered + diff_added_ops(
                source@.take(k as int),
                destination@,
                *schema,
                source_base@,
                destination_base@,
                igocv,
                igav,
                add,
            ),
        decreases source.entries@.len() - k,
    {
        let ghost pre = source@.take(k as int);
        proof {
            assert(source@.take(k + 1).drop_last() =~= pre);
            assert(source@.take(k + 1).last() == source@[k as int]);
            assert(source@[k as int] == source.entries@[k as int]@);
        }
        let se = &source.entries[k];
        if add {
            let absent = match destination.get(&se.rdn) {
                Some(_) => false,
                None => true,
            };
            if absent {
                let new_entry = transform_entry(
                    se,
                    ignore_attrs,
                    ignore_oc,
                    schema,
                    source_base,
                    destination_base,
                );
                proof {
                    assert(new_entry@ == transform_entry_view(
                        se@,
                        igav,
                        igocv,
                        *schema,
                        source_base@,
                        destination_base@,
                    ));
                }
                let ghost old_r = r@;
                let op = Operation::Add(new_entry);
                let ghost opval = op;
                r.push(op);
                proof {
                    lemma_op_views_push(old_r, opval);
                    assert(op_views(r@) =~= altered + diff_added_ops(
                        source@.take(k + 1),
                        destination@,
                        *schema,
                        source_base@,
                        destination_base@,
                        igocv,
                        igav,
                        add,
                    ));
                }
            }
        }
        k = k + 1;
    }
    proof {
        assert(source@.take(source.entries@.len() as int) =~= source@);
    }
    r
}

/// Computes the ordered reconciliation plan: the raw operation list of
/// `diff_spec`, reordered so that additions come first (ancestors before
/// descendants), modifications keep their order, and deletions come last
/// (descendants before ancestors).
pub fn diff_entries(
    source: &EntryStore,
    destination: &EntryStore,
    source_base: &String,
    destination_base: &String,
    ignore_oc: &Vec<String>,
    ignore_attrs: &Vec<String>,
    schema: &Schema,
    add: bool,
    update: bool,
    delete: bool,
) -> (r: Vec<Operation>)
    ensures
        crate::plan::is_sorted_plan_of(
            diff_spec(
                source@,
                destination@,
                *schema,
                source_base@,
                destination_base@,
                str_views(ignore_oc@),
                str_views(ignore_attrs@),
                add,
                update,
                delete,
            ),
            op_views(r@),
        ),
{
    let raw = compute_operations(
        source,
        destination,
        source_base,
        destination_base,
        ignore_oc,
        ignore_attrs,
        schema,
        add,
        update,
        delete,
    );
    crate::plan::sort_operations(raw)
}

} // verus!
