//! Value-level transforms applied when an entry crosses from the source
//! naming context to the destination's: ignore-list filtering, objectClass
//! pruning, base-DN rewriting of DN-valued attributes, and the set semantics
//! of replacement values.
use vstd::prelude::*;
use crate::entry::{Attr, BinAttr, Entry, text_attrs_view, bin_attrs_view};
use crate::schema::Schema;
use crate::text::{replace_seq, replace_all};
use crate::values::{
    str_views,
    bin_views,
    count_seqs,
    dedup_seqs,
    dedup_values,
    count_matching,
    clone_bytes,
};

verus! {

/// Whether `x` is one of `names`.
pub open spec fn has_name<T>(names: Seq<Seq<T>>, x: Seq<T>) -> bool {
    count_seqs(names, x) > 0
}

/// Whether `x` occurs in `list`.
pub fn contains_str(list: &Vec<String>, x: &String) -> (r: bool)
    ensures
        r == has_name(str_views(list@), x@),
{
    let n = count_matching(list, x);
    n > 0
}

/// The attribute name whose values are object classes.
pub open spec fn object_class_seq() -> Seq<char> {
    "objectClass"@
}

/// Whether `name` is the objectClass attribute name.
pub fn is_object_class(name: &String) -> (r: bool)
    ensures
        r == (name@ == object_class_seq()),
{
    let oc: String = String::from_str("objectClass");
    name.eq(&oc)
}

/// Every value rewritten by substituting the source base DN with the
/// destination base DN.
pub open spec fn rewrite_values(vs: Seq<Seq<char>>, src: Seq<char>, dst: Seq<char>) -> Seq<
    Seq<char>,
> {
    vs.map_values(|v: Seq<char>| replace_seq(v, src, dst))
}

/// Rewrites every value by substituting the source base DN with the
/// destination base DN.
pub fn rewrite_all_values(values: &Vec<String>, src: &String, dst: &String) -> (r: Vec<String>)
    ensures
        str_views(r@) == rewrite_values(str_views(values@), src@, dst@),
{
    let mut r: Vec<String> = Vec::new();
    let mut i: usize = 0;
    proof {
        assert(str_views(r@) =~= rewrite_values(str_views(values@).take(0), src@, dst@));
    }
    while i < values.len()
        invariant
            0 <= i <= values@.len(),
            str_views(r@) == rewrite_values(str_views(values@).take(i as int), src@, dst@),
        decreases values@.len() - i,
    {
        let ghost old_r = r@;
        let v = replace_all(&values[i], src, dst);
        let ghost vview = v@;
        r.push(v);
        proof {
            let vv = str_views(values@);
            let lhs = str_views(r@);
            let rhs = rewrite_values(vv.take(i + 1), src@, dst@);
            assert(r@ == old_r.push(v));
            assert(r@.len() == old_r.len() + 1);
            assert(str_views(old_r).len() == old_r.len());
            assert(str_views(old_r).len() == i as int);
            assert(lhs.len() == r@.len());
            assert(lhs.len() == i + 1);
            assert(rhs.len() == i + 1);
            assert forall|j: int| 0 <= j < i + 1 implies lhs[j] == rhs[j] by {
                assert(lhs[j] == r@[j]@);
                assert(rhs[j] == replace_seq(vv.take(i + 1)[j], src@, dst@));
                assert(vv.take(i + 1)[j] == vv[j]);
                if j < i {
                    assert(r@[j] == old_r[j]);
                    assert(lhs[j] == str_views(old_r)[j]);
                    assert(str_views(old_r)[j] == rewrite_values(
                        vv.take(i as int),
                        src@,
                        dst@,
                    )[j]);
                    assert(rewrite_values(vv.take(i as int), src@, dst@)[j] == replace_seq(
                        vv.take(i as int)[j],
                        src@,
                        dst@,
                    ));
                    assert(vv.take(i as int)[j] == vv[j]);
                } else {
                    assert(r@[j] == v);
                    assert(vview == replace_seq(values@[i as int]@, src@, dst@));
                    assert(vv[j] == values@[i as int]@);
                }
            }
            assert(lhs =~= rhs);
        }
        i = i + 1;
    }
    proof {
        assert(str_views(values@).take(values@.len() as int) =~= str_views(values@));
    }
    r
}

/// The values of `vs` whose text is not one of `names`, in order.
pub open spec fn filter_not_in(vs: Seq<Seq<char>>, names: Seq<Seq<char>>) -> Seq<Seq<char>>
    decreases vs.len(),
{
    if vs.len() == 0 {
        Seq::empty()
    } else {
        let rest = filter_not_in(vs.drop_last(), names);
        if has_name(names, vs.last()) {
            rest
        } else {
            rest.push(vs.last())
        }
    }
}

/// Keeps the values that are not listed in `names`.
pub fn filter_values_not_in(values: &Vec<String>, names: &Vec<String>) -> (r: Vec<String>)
    ensures
        str_views(r@) == filter_not_in(str_views(values@), str_views(names@)),
{
    let mut r: Vec<String> = Vec::new();
    let mut i: usize = 0;
    proof {
        assert(str_views(r@) =~= filter_not_in(
            str_views(values@).take(0),
            str_views(names@),
        ));
    }
    while i < values.len()
        invariant
            0 <= i <= values@.len(),
            str_views(r@) == filter_not_in(str_views(values@).take(i as int), str_views(names@)),
        decreases values@.len() - i,
    {
        let ghost pre = str_views(values@).take(i as int);
        proof {
            assert(str_views(values@).take(i + 1).drop_last() =~= pre);
            assert(str_views(values@).take(i + 1).last() == str_views(values@)[i as int]);
        }
        if !contains_str(names, &values[i]) {
            let ghost old_r = r@;
            let c = values[i].clone();
            r.push(c);
            proof {
                crate::values::lemma_str_views_push(old_r, c);
                assert(str_views(r@) == str_views(old_r).push(str_views(values@)[i as int]));
            }
        }
        i = i + 1;
    }
    proof {
        assert(str_views(values@).take(values@.len() as int) =~= str_views(values@));
    }
    r
}

/// Copies a list of textual values.
pub fn clone_values(values: &Vec<String>) -> (r: Vec<String>)
    ensures
        str_views(r@) == str_views(values@),
{
    let mut r: Vec<String> = Vec::new();
    let mut i: usize = 0;
    while i < values.len()
        invariant
            0 <= i <= values@.len(),
            str_views(r@) == str_views(values@).take(i as int),
        decreases values@.len() - i,
    {
        let ghost old_r = r@;
        let c = values[i].clone();
        r.push(c);
        proof {
            crate::values::lemma_str_views_push(old_r, c);
            assert(str_views(values@).take(i + 1) =~= str_views(values@).take(i as int).push(
                str_views(values@)[i as int],
            ));
            assert(str_views(r@) == str_views(values@).take(i + 1));
        }
        i = i + 1;
    }
    proof {
        assert(str_views(values@).take(values@.len() as int) =~= str_views(values@));
    }
    r
}

/// Copies a list of binary values.
pub fn clone_bin_values_list(values: &Vec<Vec<u8>>) -> (r: Vec<Vec<u8>>)
    ensures
        bin_views(r@) == bin_views(values@),
{
    let mut r: Vec<Vec<u8>> = Vec::new();
    let mut i: usize = 0;
    while i < values.len()
        invariant
            0 <= i <= values@.len(),
            bin_views(r@) == bin_views(values@).take(i as int),
        decreases values@.len() - i,
    {
        let ghost old_r = r@;
        let c = clone_bytes(&values[i]);
        r.push(c);
        proof {
            crate::values::lemma_bin_views_push(old_r, c);
            assert(bin_views(values@).take(i + 1) =~= bin_views(values@).take(i as int).push(
                bin_views(values@)[i as int],
            ));
            assert(bin_views(r@) == bin_views(values@).take(i + 1));
        }
        i = i + 1;
    }
    proof {
        assert(bin_views(values@).take(values@.len() as int) =~= bin_views(values@));
    }
    r
}

/// The replacement value set for one textual attribute: the source values as
/// a set (first occurrences kept), with ignored object classes removed when
/// the attribute is objectClass, and with the base DN rewritten when the
/// attribute has DN syntax.
pub open spec fn replacement_values_spec(
    vs: Seq<Seq<char>>,
    is_oc: bool,
    ignore_oc: Seq<Seq<char>>,
    dn_syn: bool,
    src: Seq<char>,
    dst: Seq<char>,
) -> Seq<Seq<char>> {
    let v1 = dedup_seqs(vs);
    let v2 = if is_oc {
        filter_not_in(v1, ignore_oc)
    } else {
        v1
    };
    let v3 = if dn_syn {
        rewrite_values(v2, src, dst)
    } else {
        v2
    };
    dedup_seqs(v3)
}

/// Builds the replacement value set for one textual attribute.
pub fn replacement_values(
    values: &Vec<String>,
    is_oc: bool,
    ignore_oc: &Vec<String>,
    dn_syn: bool,
    src: &String,
    dst: &String,
) -> (r: Vec<String>)
    ensures
        str_views(r@) == replacement_values_spec(
            str_views(values@),
            is_oc,
            str_views(ignore_oc@),
            dn_syn,
            src@,
            dst@,
        ),
{
    let v1 = dedup_values(values);
    let v2 = if is_oc {
        filter_values_not_in(&v1, ignore_oc)
    } else {
        v1
    };
    let v3 = if dn_syn {
        rewrite_all_values(&v2, src, dst)
    } else {
        v2
    };
    dedup_values(&v3)
}

/// The textual attributes of an entry as they cross to the destination:
/// ignored attributes removed, ignored object classes dropped from
/// objectClass, and DN-valued attributes rewritten to the destination base.
/// Values are not deduplicated here; the entry is copied as it stands.
pub open spec fn transform_text_attrs(
    av: Seq<(Seq<char>, Seq<Seq<char>>)>,
    ignore_attrs: Seq<Seq<char>>,
    ignore_oc: Seq<Seq<char>>,
    schema: Schema,
    src: Seq<char>,
    dst: Seq<char>,
) -> Seq<(Seq<char>, Seq<Seq<char>>)>
    decreases av.len(),
{
    if av.len() == 0 {
        Seq::empty()
    } else {
        let rest = transform_text_attrs(av.drop_last(), ignore_attrs, ignore_oc, schema, src, dst);
        let (n, vs) = av.last();
        if has_name(ignore_attrs, n) {
            rest
        } else {
            let v1 = if n == object_class_seq() {
                filter_not_in(vs, ignore_oc)
            } else {
                vs
            };
            let v2 = if schema.dn_syntax_of(n) {
                rewrite_values(v1, src, dst)
            } else {
                v1
            };
            rest.push((n, v2))
        }
    }
}

/// The binary attributes of an entry as they cross to the destination:
/// ignored attributes removed, everything else copied byte for byte.
pub open spec fn filter_bin_attrs(
    av: Seq<(Seq<char>, Seq<Seq<u8>>)>,
    ignore_attrs: Seq<Seq<char>>,
) -> Seq<(Seq<char>, Seq<Seq<u8>>)>
    decreases av.len(),
{
    if av.len() == 0 {
        Seq::empty()
    } else {
        let rest = filter_bin_attrs(av.drop_last(), ignore_attrs);
        if has_name(ignore_attrs, av.last().0) {
            rest
        } else {
            rest.push(av.last())
        }
    }
}

/// Transforms a source entry into the entry to add at the destination:
/// ignored attributes are removed from both attribute lists, ignored object
/// classes are dropped from objectClass, and every DN-valued textual
/// attribute is rewritten from the source base DN to the destination's.
pub fn transform_entry(
    e: &Entry,
    ignore_attrs: &Vec<String>,
    ignore_oc: &Vec<String>,
    schema: &Schema,
    src_base: &String,
    dst_base: &String,
) -> (r: Entry)
    ensures
        r@.rdn == e@.rdn,
        r@.attrs == transform_text_attrs(
            e@.attrs,
            str_views(ignore_attrs@),
            str_views(ignore_oc@),
            *schema,
            src_base@,
            dst_base@,
        ),
        r@.bin_attrs == filter_bin_attrs(e@.bin_attrs, str_views(ignore_attrs@)),
{
    let ghost igv = str_views(ignore_attrs@);
    let ghost igocv = str_views(ignore_oc@);
    let mut out: Vec<Attr> = Vec::new();
    let mut i: usize = 0;
    proof {
        assert(text_attrs_view(out@) =~= transform_text_attrs(
            e@.attrs.take(0),
            igv,
            igocv,
            *schema,
            src_base@,
            dst_base@,
        ));
    }
    while i < e.attrs.len()
        invariant
            0 <= i <= e.attrs@.len(),
            igv == str_views(ignore_attrs@),
            igocv == str_views(ignore_oc@),
            e@.attrs.len() == e.attrs@.len(),
            text_attrs_view(out@) == transform_text_attrs(
                e@.attrs.take(i as int),
                igv,
                igocv,
                *schema,
                src_base@,
                dst_base@,
            ),
        decreases e.attrs@.len() - i,
    {
        let ghost pre = e@.attrs.take(i as int);
        proof {
            assert(e@.attrs.take(i + 1).drop_last() =~= pre);
            assert(e@.attrs.take(i + 1).last() == e@.attrs[i as int]);
            assert(e@.attrs[i as int] == (e.attrs@[i as int].name@, str_views(
                e.attrs@[i as int].values@,
            )));
        }
        let a = &e.attrs[i];
        if !contains_str(ignore_attrs, &a.name) {
            let v1: Vec<String> = if is_object_class(&a.name) {
                filter_values_not_in(&a.values, ignore_oc)
            } else {
                clone_values(&a.values)
            };
            let v2: Vec<String> = if schema.is_dn_syntax(&a.name) {
                rewrite_all_values(&v1, src_base, dst_base)
            } else {
                v1
            };
            let ghost old_out = out@;
            out.push(Attr { name: a.name.clone(), values: v2 });
            proof {
                assert(text_attrs_view(out@) =~= text_attrs_view(old_out).push(
                    (e@.attrs[i as int].0, str_views(out@.last().values@)),
                ));
            }
        }
        i = i + 1;
    }
    proof {
        assert(e@.attrs.take(e.attrs@.len() as int) =~= e@.attrs);
    }
    let mut out_bin: Vec<BinAttr> = Vec::new();
    let mut k: usize = 0;
    proof {
        assert(bin_attrs_view(out_bin@) =~= filter_bin_attrs(e@.bin_attrs.take(0), igv));
    }
    while k < e.bin_attrs.len()
        invariant
            0 <= k <= e.bin_attrs@.len(),
            igv == str_views(ignore_attrs@),
            e@.bin_attrs.len() == e.bin_attrs@.len(),
            bin_attrs_view(out_bin@) == filter_bin_attrs(e@.bin_attrs.take(k as int), igv),
        decreases e.bin_attrs@.len() - k,
    {
        let ghost pre = e@.bin_attrs.take(k as int);
        proof {
            assert(e@.bin_attrs.take(k + 1).drop_last() =~= pre);
            assert(e@.bin_attrs.take(k + 1).last() == e@.bin_attrs[k as int]);
            assert(e@.bin_attrs[k as int] == (e.bin_attrs@[k as int].name@, bin_views(
                e.bin_attrs@[k as int].values@,
            )));
        }
        let a = &e.bin_attrs[k];
        if !contains_str(ignore_attrs, &a.name) {
            let vs = clone_bin_values_list(&a.values);
            let ghost old_out = out_bin@;
            out_bin.push(BinAttr { name: a.name.clone(), values: vs });
            proof {
                assert(bin_attrs_view(out_bin@) =~= bin_attrs_view(old_out).push(
                    e@.bin_attrs[k as int],
                ));
            }
        }
        k = k + 1;
    }
    proof {
        assert(e@.bin_attrs.take(e.bin_attrs@.len() as int) =~= e@.bin_attrs);
    }
    Entry { rdn: e.rdn.clone(), attrs: out, bin_attrs: out_bin }
}

} // verus!
