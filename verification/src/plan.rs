//! The planner: orders a raw operation list so that additions come first,
//! shallowest entry first, modifications keep their order in the middle, and
//! deletions come last, deepest entry first.
use vstd::prelude::*;
use crate::ops::{Operation, OperationV, op_views, lemma_op_views_push};
use crate::dn::{dn_cmp, lemma_dn_cmp_total};

verus! {

broadcast use vstd::seq_lib::group_to_multiset_ensures;

/// The Add operations of `s`, in order.
pub open spec fn adds_of(s: Seq<OperationV>) -> Seq<OperationV>
    decreases s.len(),
{
    if s.len() == 0 {
        Seq::empty()
    } else {
        let rest = adds_of(s.drop_last());
        if s.last() is Add {
            rest.push(s.last())
        } else {
            rest
        }
    }
}

/// The Modify operations of `s`, in order.
pub open spec fn mods_of(s: Seq<OperationV>) -> Seq<OperationV>
    decreases s.len(),
{
    if s.len() == 0 {
        Seq::empty()
    } else {
        let rest = mods_of(s.drop_last());
        if s.last() is Modify {
            rest.push(s.last())
        } else {
            rest
        }
    }
}

/// The Delete operations of `s`, in order.
pub open spec fn dels_of(s: Seq<OperationV>) -> Seq<OperationV>
    decreases s.len(),
{
    if s.len() == 0 {
        Seq::empty()
    } else {
        let rest = dels_of(s.drop_last());
        if s.last() is Delete {
            rest.push(s.last())
        } else {
            rest
        }
    }
}

/// Every operation is of exactly one kind, so the three parts cover `s`.
pub proof fn lemma_partition_len(s: Seq<OperationV>)
    ensures
        adds_of(s).len() + mods_of(s).len() + dels_of(s).len() == s.len(),
    decreases s.len(),
{
    if s.len() > 0 {
        lemma_partition_len(s.drop_last());
    }
}

/// `out` is the plan obtained from `input` by ordering: the additions of
/// `input` first, sorted ancestors-first; then the modifications of `input`
/// exactly in their order; then the deletions, sorted descendants-first.
pub open spec fn is_sorted_plan_of(input: Seq<OperationV>, out: Seq<OperationV>) -> bool {
    let adds = adds_of(input);
    let mods = mods_of(input);
    let dels = dels_of(input);
    let na = adds.len() as int;
    let nm = mods.len() as int;
    let nd = dels.len() as int;
    &&& out.len() == input.len()
    &&& out.subrange(na, na + nm) == mods
    &&& out.subrange(0, na).to_multiset() == adds.to_multiset()
    &&& out.subrange(na + nm, na + nm + nd).to_multiset() == dels.to_multiset()
    &&& forall|i: int| 0 <= i < na ==> out[i] is Add
    &&& forall|i: int| na + nm <= i < out.len() ==> out[i] is Delete
    &&& forall|i: int, j: int|
        0 <= i < j < na ==> dn_cmp(out[i].rdn(), out[j].rdn()) <= 0
    &&& forall|i: int, j: int|
        na + nm <= i < j < out.len() ==> dn_cmp(out[i].rdn(), out[j].rdn()) >= 0
}

/// The relative DN an operation acts on.
pub fn op_rdn_ref(op: &Operation) -> (r: &String)
    ensures
        r@ == op@.rdn(),
{
    match op {
        Operation::Add(e) => &e.rdn,
        Operation::Delete { rdn } => rdn,
        Operation::Modify { rdn, .. } => rdn,
    }
}

/// Sorts operations by the DN ordering, ancestors first when `descending`
/// is false and descendants first when it is true. The result holds exactly
/// the given operations.
pub fn sort_ops_by_dn(ops: Vec<Operation>, descending: bool) -> (r: Vec<Operation>)
    ensures
        op_views(r@).to_multiset() == op_views(ops@).to_multiset(),
        op_views(r@).len() == op_views(ops@).len(),
        !descending ==> forall|i: int, j: int|
            0 <= i < j < r@.len() ==> dn_cmp(op_views(r@)[i].rdn(), op_views(r@)[j].rdn()) <= 0,
        descending ==> forall|i: int, j: int|
            0 <= i < j < r@.len() ==> dn_cmp(op_views(r@)[i].rdn(), op_views(r@)[j].rdn()) >= 0,
{
    let ghost orig = op_views(ops@);
    let mut src = ops;
    let mut out: Vec<Operation> = Vec::new();
    proof {
        assert(op_views(out@) =~= Seq::<OperationV>::empty());
        assert(op_views(out@).to_multiset().add(op_views(src@).to_multiset()) =~= orig.to_multiset());
    }
    while src.len() > 0
        invariant
            op_views(out@).to_multiset().add(op_views(src@).to_multiset()) == orig.to_multiset(),
            op_views(out@).len() + op_views(src@).len() == orig.len(),
            forall|i: int, j: int|
                0 <= i < j < out@.len() ==> (if descending {
                    dn_cmp(op_views(out@)[i].rdn(), op_views(out@)[j].rdn()) >= 0
                } else {
                    dn_cmp(op_views(out@)[i].rdn(), op_views(out@)[j].rdn()) <= 0
                }),
            forall|i: int, j: int|
                0 <= i < out@.len() && 0 <= j < src@.len() ==> (if descending {
                    dn_cmp(op_views(out@)[i].rdn(), op_views(src@)[j].rdn()) >= 0
                } else {
                    dn_cmp(op_views(out@)[i].rdn(), op_views(src@)[j].rdn()) <= 0
                }),
        decreases src@.len(),
    {
        let mut m: usize = 0;
        let mut j: usize = 1;
        proof {
            let a = op_views(src@)[0].rdn();
            lemma_dn_cmp_total(a, a, a);
        }
        while j < src.len()
            invariant
                0 <= m < j <= src@.len(),
                src@.len() > 0,
                forall|k: int|
                    0 <= k < j ==> (if descending {
                        dn_cmp(op_views(src@)[m as int].rdn(), op_views(src@)[k].rdn()) >= 0
                    } else {
                        dn_cmp(op_views(src@)[m as int].rdn(), op_views(src@)[k].rdn()) <= 0
                    }),
            decreases src@.len() - j,
        {
            let c = crate::dn::compare_dns(op_rdn_ref(&src[j]), op_rdn_ref(&src[m]));
            let better = if descending {
                c > 0
            } else {
                c < 0
            };
            if better {
                proof {
                    assert forall|k: int| 0 <= k < j implies (if descending {
                        dn_cmp(op_views(src@)[j as int].rdn(), op_views(src@)[k].rdn()) >= 0
                    } else {
                        dn_cmp(op_views(src@)[j as int].rdn(), op_views(src@)[k].rdn()) <= 0
                    }) by {
                        let a = op_views(src@)[j as int].rdn();
                        let b = op_views(src@)[m as int].rdn();
                        let d = op_views(src@)[k].rdn();
                        lemma_dn_cmp_total(a, b, d);
                        lemma_dn_cmp_total(b, d, a);
                        lemma_dn_cmp_total(d, b, a);
                        lemma_dn_cmp_total(b, a, d);
                        lemma_dn_cmp_total(a, d, b);
                        lemma_dn_cmp_total(d, a, b);
                    }
                    let a2 = op_views(src@)[j as int].rdn();
                    lemma_dn_cmp_total(a2, a2, a2);
                }
                m = j;
            } else {
                proof {
                    let a = op_views(src@)[j as int].rdn();
                    let b = op_views(src@)[m as int].rdn();
                    lemma_dn_cmp_total(a, b, b);
                }
            }
            j = j + 1;
        }
        let ghost old_src = src@;
        let ghost old_out = out@;
        let x = src.remove(m);
        let ghost xval = x;
        out.push(x);
        proof {
            lemma_op_views_push(old_out, xval);
            assert(op_views(src@) =~= op_views(old_src).remove(m as int)) by {
                assert(src@ == old_src.remove(m as int));
                assert forall|t: int| 0 <= t < src@.len() implies op_views(src@)[t] == op_views(
                    old_src,
                ).remove(m as int)[t] by {
                    if t < m {
                        assert(src@[t] == old_src[t]);
                    } else {
                        assert(src@[t] == old_src[t + 1]);
                    }
                }
            }
            assert(op_views(old_src)[m as int] == xval@);
            assert(op_views(old_src).remove(m as int).to_multiset() == op_views(
                old_src,
            ).to_multiset().remove(xval@));
            assert(op_views(out@).to_multiset().add(op_views(src@).to_multiset())
                =~= orig.to_multiset()) by {
                assert(op_views(out@).to_multiset() == op_views(old_out).to_multiset().insert(
                    xval@,
                ));
                assert(op_views(old_src).to_multiset().count(xval@) > 0);
            }
            assert forall|i: int, j2: int|
                0 <= i < out@.len() && 0 <= j2 < src@.len() implies (if descending {
                    dn_cmp(op_views(out@)[i].rdn(), op_views(src@)[j2].rdn()) >= 0
                } else {
                    dn_cmp(op_views(out@)[i].rdn(), op_views(src@)[j2].rdn()) <= 0
                }) by {
                let sj = if j2 < m {
                    j2
                } else {
                    j2 + 1
                };
                assert(op_views(src@)[j2] == op_views(old_src)[sj]);
                if i < old_out.len() {
                    assert(op_views(out@)[i] == op_views(old_out)[i]);
                } else {
                    assert(op_views(out@)[i] == xval@);
                }
            }
        }
    }
    proof {
        assert(op_views(src@) =~= Seq::<OperationV>::empty());
        assert(op_views(out@).to_multiset().add(Seq::<OperationV>::empty().to_multiset())
            =~= op_views(out@).to_multiset());
    }
    out
}

/// Orders a raw operation list into the plan to apply: additions first,
/// ancestors before descendants; then modifications in their given order;
/// then deletions, descendants before ancestors.
pub fn sort_operations(ops: Vec<Operation>) -> (r: Vec<Operation>)
    ensures
        is_sorted_plan_of(op_views(ops@), op_views(r@)),
{
    let ghost orig = op_views(ops@);
    let mut adds: Vec<Operation> = Vec::new();
    let mut mods: Vec<Operation> = Vec::new();
    let mut dels: Vec<Operation> = Vec::new();
    let mut src = ops;
    let mut t: usize = 0;
    let total: usize = src.len();
    proof {
        assert(op_views(adds@) =~= adds_of(orig.take(0)));
        assert(op_views(mods@) =~= mods_of(orig.take(0)));
        assert(op_views(dels@) =~= dels_of(orig.take(0)));
    }
    while src.len() > 0
        invariant
            total == orig.len(),
            t + src@.len() == total,
            op_views(src@) == orig.skip(t as int),
            op_views(adds@) == adds_of(orig.take(t as int)),
            op_views(mods@) == mods_of(orig.take(t as int)),
            op_views(dels@) == dels_of(orig.take(t as int)),
        decreases src@.len(),
    {
        let ghost old_src = src@;
        let x = src.remove(0);
        let ghost xval = x;
        proof {
            assert(op_views(src@) =~= op_views(old_src).drop_first()) by {
                assert(src@ == old_src.remove(0));
                assert forall|k: int| 0 <= k < src@.len() implies op_views(src@)[k] == op_views(
                    old_src,
                ).drop_first()[k] by {
                    assert(src@[k] == old_src[k + 1]);
                }
            }
            assert(op_views(old_src)[0] == xval@);
            assert(xval@ == orig[t as int]);
            assert(op_views(src@) =~= orig.skip(t + 1));
            assert(orig.take(t + 1).drop_last() =~= orig.take(t as int));
            assert(orig.take(t + 1).last() == orig[t as int]);
        }
        let is_add = matches!(&x, Operation::Add(_));
        let is_mod = matches!(&x, Operation::Modify { .. });
        if is_add {
            let ghost old = adds@;
            adds.push(x);
            proof {
                lemma_op_views_push(old, xval);
            }
        } else if is_mod {
            let ghost old = mods@;
            mods.push(x);
            proof {
                lemma_op_views_push(old, xval);
            }
        } else {
            let ghost old = dels@;
            dels.push(x);
            proof {
                lemma_op_views_push(old, xval);
            }
        }
        t = t + 1;
    }
    proof {
        assert(orig.take(orig.len() as int) =~= orig);
    }
    let ghost adds_v = adds_of(orig);
    let ghost mods_v = mods_of(orig);
    let ghost dels_v = dels_of(orig);
    let sorted_adds = sort_ops_by_dn(adds, false);
    let sorted_dels = sort_ops_by_dn(dels, true);
    proof {
        lemma_partition_len(orig);
        lemma_adds_of_all_adds(orig);
        lemma_dels_of_all_dels(orig);
        assert forall|i: int| 0 <= i < op_views(sorted_adds@).len() implies op_views(
            sorted_adds@,
        )[i] is Add by {
            lemma_multiset_kind(adds_v, op_views(sorted_adds@), i);
        }
        assert forall|i: int| 0 <= i < op_views(sorted_dels@).len() implies op_views(
            sorted_dels@,
        )[i] is Delete by {
            lemma_multiset_kind_del(dels_v, op_views(sorted_dels@), i);
        }
    }
    let mut r = sorted_adds;
    let ghost base_adds = op_views(r@);
    let ghost mods_views = op_views(mods@);
    let mut src_mods = mods;
    let mut done: usize = 0;
    let total_mods: usize = src_mods.len();
    proof {
        assert(mods_views.skip(0) =~= mods_views);
        assert(op_views(r@) =~= base_adds + mods_views.take(0));
    }
    while src_mods.len() > 0
        invariant
            total_mods == mods_views.len(),
            done + src_mods@.len() == total_mods,
            op_views(src_mods@) == mods_views.skip(done as int),
            op_views(r@) == base_adds + mods_views.take(done as int),
        decreases src_mods@.len(),
    {
        let ghost old_src = src_mods@;
        let ghost old_r = r@;
        let m = src_mods.remove(0);
        let ghost mval = m;
        r.push(m);
        proof {
            assert(op_views(src_mods@) =~= op_views(old_src).drop_first()) by {
                assert(src_mods@ == old_src.remove(0));
                assert forall|k: int| 0 <= k < src_mods@.len() implies op_views(src_mods@)[k]
                    == op_views(old_src).drop_first()[k] by {
                    assert(src_mods@[k] == old_src[k + 1]);
                }
            }
            assert(op_views(old_src)[0] == mval@);
            assert(mval@ == mods_views[done as int]);
            assert(op_views(src_mods@) =~= mods_views.skip(done + 1));
            lemma_op_views_push(old_r, mval);
            assert(op_views(r@) =~= base_adds + mods_views.take(done + 1));
        }
        done = done + 1;
    }
    proof {
        assert(mods_views.take(mods_views.len() as int) =~= mods_views);
    }
    let ghost base_mid = op_views(r@);
    let ghost dels_views = op_views(sorted_dels@);
    let mut src_dels = sorted_dels;
    let mut dn: usize = 0;
    let total_dels: usize = src_dels.len();
    proof {
        assert(dels_views.skip(0) =~= dels_views);
        assert(op_views(r@) =~= base_mid + dels_views.take(0));
    }
    while src_dels.len() > 0
        invariant
            total_dels == dels_views.len(),
            dn + src_dels@.len() == total_dels,
            op_views(src_dels@) == dels_views.skip(dn as int),
            op_views(r@) == base_mid + dels_views.take(dn as int),
        decreases src_dels@.len(),
    {
        let ghost old_src = src_dels@;
        let ghost old_r = r@;
        let d = src_dels.remove(0);
        let ghost dval = d;
        r.push(d);
        proof {
            assert(op_views(src_dels@) =~= op_views(old_src).drop_first()) by {
                assert(src_dels@ == old_src.remove(0));
                assert forall|k: int| 0 <= k < src_dels@.len() implies op_views(src_dels@)[k]
                    == op_views(old_src).drop_first()[k] by {
                    assert(src_dels@[k] == old_src[k + 1]);
                }
            }
            assert(op_views(old_src)[0] == dval@);
            assert(dval@ == dels_views[dn as int]);
            assert(op_views(src_dels@) =~= dels_views.skip(dn + 1));
            lemma_op_views_push(old_r, dval);
            assert(op_views(r@) =~= base_mid + dels_views.take(dn + 1));
        }
        dn = dn + 1;
    }
    proof {
        assert(dels_views.take(dels_views.len() as int) =~= dels_views);
        let na = adds_v.len() as int;
        let nm = mods_v.len() as int;
        let nd = dels_v.len() as int;
        let out = op_views(r@);
        assert(base_adds.len() == na);
        assert(mods_views == mods_v);
        assert(out =~= base_adds + mods_views + dels_views);
        assert(out.len() == na + nm + nd);
        assert(out.subrange(na, na + nm) =~= mods_v);
        assert(out.subrange(0, na) =~= base_adds);
        assert(out.subrange(na + nm, na + nm + nd) =~= dels_views);
        assert forall|i: int| 0 <= i < na implies out[i] is Add by {
            assert(out[i] == base_adds[i]);
        }
        assert forall|i: int| na + nm <= i < out.len() implies out[i] is Delete by {
            assert(out[i] == dels_views[i - na - nm]);
        }
        assert forall|i: int, j: int| 0 <= i < j < na implies dn_cmp(out[i].rdn(), out[j].rdn())
            <= 0 by {
            assert(out[i] == base_adds[i]);
            assert(out[j] == base_adds[j]);
        }
        assert forall|i: int, j: int| na + nm <= i < j < out.len() implies dn_cmp(
            out[i].rdn(),
            out[j].rdn(),
        ) >= 0 by {
            assert(out[i] == dels_views[i - na - nm]);
            assert(out[j] == dels_views[j - na - nm]);
        }
    }
    r
}

pub proof fn lemma_adds_of_all_adds(s: Seq<OperationV>)
    ensures
        forall|i: int| 0 <= i < adds_of(s).len() ==> adds_of(s)[i] is Add,
    decreases s.len(),
{
    if s.len() > 0 {
        lemma_adds_of_all_adds(s.drop_last());
    }
}

pub proof fn lemma_dels_of_all_dels(s: Seq<OperationV>)
    ensures
        forall|i: int| 0 <= i < dels_of(s).len() ==> dels_of(s)[i] is Delete,
    decreases s.len(),
{
    if s.len() > 0 {
        lemma_dels_of_all_dels(s.drop_last());
    }
}

pub proof fn lemma_mods_of_all_mods(s: Seq<OperationV>)
    ensures
        forall|i: int| 0 <= i < mods_of(s).len() ==> mods_of(s)[i] is Modify,
    decreases s.len(),
{
    if s.len() > 0 {
        lemma_mods_of_all_mods(s.drop_last());
    }
}

proof fn lemma_multiset_kind(adds: Seq<OperationV>, out: Seq<OperationV>, i: int)
    requires
        out.to_multiset() == adds.to_multiset(),
        0 <= i < out.len(),
        forall|k: int| 0 <= k < adds.len() ==> adds[k] is Add,
    ensures
        out[i] is Add,
{
    broadcast use vstd::seq_lib::group_to_multiset_ensures;

    assert(out.to_multiset().count(out[i]) > 0) by {
        assert(out.contains(out[i]));
    }
    assert(adds.contains(out[i]));
}

proof fn lemma_multiset_kind_del(dels: Seq<OperationV>, out: Seq<OperationV>, i: int)
    requires
        out.to_multiset() == dels.to_multiset(),
        0 <= i < out.len(),
        forall|k: int| 0 <= k < dels.len() ==> dels[k] is Delete,
    ensures
        out[i] is Delete,
{
    broadcast use vstd::seq_lib::group_to_multiset_ensures;

    assert(out.to_multiset().count(out[i]) > 0) by {
        assert(out.contains(out[i]));
    }
    assert(dels.contains(out[i]));
}

} // verus!
