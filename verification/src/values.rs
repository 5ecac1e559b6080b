//! Attribute-value collections: occurrence counting, order-insensitive
//! comparison, and first-occurrence deduplication, for textual and binary
//! values alike.
use vstd::prelude::*;
use crate::text::lower_of;

verus! {

/// How many members of `ss` equal `x`.
pub open spec fn count_seqs<T>(ss: Seq<Seq<T>>, x: Seq<T>) -> nat
    decreases ss.len(),
{
    if ss.len() == 0 {
        0
    } else {
        (if ss[0] == x {
            1nat
        } else {
            0nat
        }) + count_seqs(ss.drop_first(), x)
    }
}

/// Two collections hold the same values with the same multiplicities,
/// regardless of order. This is exactly the condition "the two sorted
/// sequences are equal".
pub open spec fn same_multiset<T>(a: Seq<Seq<T>>, b: Seq<Seq<T>>) -> bool {
    forall|x: Seq<T>| #[trigger] count_seqs(a, x) == count_seqs(b, x)
}

/// The views of a sequence of strings.
pub open spec fn str_views(vs: Seq<String>) -> Seq<Seq<char>> {
    vs.map_values(|v: String| v@)
}

/// The views of a sequence of byte strings.
pub open spec fn bin_views(vs: Seq<Vec<u8>>) -> Seq<Seq<u8>> {
    vs.map_values(|v: Vec<u8>| v@)
}

/// The case-folded image of a collection of character sequences.
pub open spec fn lower_all(ss: Seq<Seq<char>>) -> Seq<Seq<char>> {
    ss.map_values(|s: Seq<char>| lower_of(s))
}

/// Case-folds every value.
pub fn lowercase_all(vs: &Vec<String>) -> (r: Vec<String>)
    ensures
        str_views(r@) == lower_all(str_views(vs@)),
{
    let mut r: Vec<String> = Vec::new();
    let mut i: usize = 0;
    proof {
        assert(str_views(r@) =~= lower_all(str_views(vs@).take(0)));
    }
    while i < vs.len()
        invariant
            0 <= i <= vs@.len(),
            str_views(r@) == lower_all(str_views(vs@).take(i as int)),
        decreases vs@.len() - i,
    {
        let ghost old_r = r@;
        let v = crate::text::to_lowercase(&vs[i]);
        let ghost vview = v@;
        r.push(v);
        proof {
            let vv = str_views(vs@);
            let lhs = str_views(r@);
            let rhs = lower_all(vv.take(i + 1));
            assert(r@.len() == old_r.len() + 1);
            assert(str_views(old_r).len() == old_r.len());
            assert(str_views(old_r).len() == i as int);
            assert(lhs.len() == i + 1);
            assert(rhs.len() == i + 1);
            assert forall|j: int| 0 <= j < i + 1 implies lhs[j] == rhs[j] by {
                assert(lhs[j] == r@[j]@);
                assert(rhs[j] == lower_of(vv.take(i + 1)[j]));
                assert(vv.take(i + 1)[j] == vv[j]);
                if j < i {
                    assert(r@[j] == old_r[j]);
                    assert(lhs[j] == str_views(old_r)[j]);
                    assert(str_views(old_r)[j] == lower_all(vv.take(i as int))[j]);
                    assert(lower_all(vv.take(i as int))[j] == lower_of(vv.take(i as int)[j]));
                    assert(vv.take(i as int)[j] == vv[j]);
                } else {
                    assert(vview == lower_of(vs@[i as int]@));
                    assert(vv[j] == vs@[i as int]@);
                }
            }
            assert(lhs =~= rhs);
        }
        i = i + 1;
    }
    proof {
        assert(str_views(vs@).take(vs@.len() as int) =~= str_views(vs@));
    }
    r
}

/// Mapping a function over a sequence commutes with appending one element.
pub proof fn lemma_map_values_push<A, B>(s: Seq<A>, v: A, f: spec_fn(A) -> B)
    ensures
        s.push(v).map_values(f) == s.map_values(f).push(f(v)),
{
    assert forall|j: int| 0 <= j < s.len() + 1 implies s.push(v).map_values(f)[j] == s.map_values(
        f,
    ).push(f(v))[j] by {
        if j < s.len() {
            assert(s.push(v)[j] == s[j]);
        } else {
            assert(s.push(v)[j] == v);
        }
    }
    assert(s.push(v).map_values(f) =~= s.map_values(f).push(f(v)));
}

/// Taking views commutes with appending one string.
pub proof fn lemma_str_views_push(s: Seq<String>, v: String)
    ensures
        str_views(s.push(v)) == str_views(s).push(v@),
{
    assert forall|j: int| 0 <= j < s.len() + 1 implies str_views(s.push(v))[j] == str_views(
        s,
    ).push(v@)[j] by {
        if j < s.len() {
            assert(s.push(v)[j] == s[j]);
        } else {
            assert(s.push(v)[j] == v);
        }
    }
    assert(str_views(s.push(v)) =~= str_views(s).push(v@));
}

/// Taking views commutes with appending one byte string.
pub proof fn lemma_bin_views_push(s: Seq<Vec<u8>>, v: Vec<u8>)
    ensures
        bin_views(s.push(v)) == bin_views(s).push(v@),
{
    assert forall|j: int| 0 <= j < s.len() + 1 implies bin_views(s.push(v))[j] == bin_views(
        s,
    ).push(v@)[j] by {
        if j < s.len() {
            assert(s.push(v)[j] == s[j]);
        } else {
            assert(s.push(v)[j] == v);
        }
    }
    assert(bin_views(s.push(v)) =~= bin_views(s).push(v@));
}

pub proof fn lemma_count_push<T>(ss: Seq<Seq<T>>, v: Seq<T>, x: Seq<T>)
    ensures
        count_seqs(ss.push(v), x) == count_seqs(ss, x) + (if v == x {
            1nat
        } else {
            0nat
        }),
    decreases ss.len(),
{
    if ss.len() == 0 {
        assert(ss.push(v).drop_first() =~= ss);
        assert(ss.push(v)[0] == v);
    } else {
        assert(ss.push(v).drop_first() =~= ss.drop_first().push(v));
        lemma_count_push(ss.drop_first(), v, x);
    }
}

/// A positive count means some member equals `x`, and conversely.
pub proof fn lemma_count_pos<T>(ss: Seq<Seq<T>>, x: Seq<T>)
    ensures
        count_seqs(ss, x) > 0 <==> exists|i: int| 0 <= i < ss.len() && ss[i] == x,
    decreases ss.len(),
{
    if ss.len() > 0 {
        lemma_count_pos(ss.drop_first(), x);
        if ss[0] == x {
            assert(count_seqs(ss, x) > 0);
        }
        if count_seqs(ss, x) > 0 && ss[0] != x {
            let j = choose|j: int| 0 <= j < ss.drop_first().len() && ss.drop_first()[j] == x;
            assert(ss[j + 1] == x);
        }
        if exists|i: int| 0 <= i < ss.len() && ss[i] == x {
            let i = choose|i: int| 0 <= i < ss.len() && ss[i] == x;
            if ss[0] != x {
                assert(ss.drop_first()[i - 1] == x);
            }
        }
    }
}

/// Counts the values in `vs` equal to `x`.
pub fn count_matching(vs: &Vec<String>, x: &String) -> (n: usize)
    ensures
        n == count_seqs(str_views(vs@), x@),
{
    let mut n: usize = 0;
    let mut i: usize = 0;
    proof {
        assert(str_views(vs@).take(0) =~= Seq::<Seq<char>>::empty());
    }
    while i < vs.len()
        invariant
            0 <= i <= vs@.len(),
            n <= i,
            n == count_seqs(str_views(vs@).take(i as int), x@),
        decreases vs@.len() - i,
    {
        let ghost pre = str_views(vs@).take(i as int);
        proof {
            lemma_count_push(pre, str_views(vs@)[i as int], x@);
            assert(str_views(vs@).take(i + 1) =~= pre.push(str_views(vs@)[i as int]));
        }
        if vs[i].eq(x) {
            n = n + 1;
        }
        i = i + 1;
    }
    proof {
        assert(str_views(vs@).take(vs@.len() as int) =~= str_views(vs@));
    }
    n
}

/// Counts the byte strings in `vs` equal to `x`.
pub fn count_matching_bin(vs: &Vec<Vec<u8>>, x: &Vec<u8>) -> (n: usize)
    ensures
        n == count_seqs(bin_views(vs@), x@),
{
    let mut n: usize = 0;
    let mut i: usize = 0;
    proof {
        assert(bin_views(vs@).take(0) =~= Seq::<Seq<u8>>::empty());
    }
    while i < vs.len()
        invariant
            0 <= i <= vs@.len(),
            n <= i,
            n == count_seqs(bin_views(vs@).take(i as int), x@),
        decreases vs@.len() - i,
    {
        let ghost pre = bin_views(vs@).take(i as int);
        proof {
            lemma_count_push(pre, bin_views(vs@)[i as int], x@);
            assert(bin_views(vs@).take(i + 1) =~= pre.push(bin_views(vs@)[i as int]));
        }
        if eq_bytes(&vs[i], x) {
            n = n + 1;
        }
        i = i + 1;
    }
    proof {
        assert(bin_views(vs@).take(vs@.len() as int) =~= bin_views(vs@));
    }
    n
}

/// Whether two byte strings are equal.
pub fn eq_bytes(a: &Vec<u8>, b: &Vec<u8>) -> (r: bool)
    ensures
        r == (a@ == b@),
{
    if a.len() != b.len() {
        return false;
    }
    let mut i: usize = 0;
    while i < a.len()
        invariant
            0 <= i <= a@.len(),
            a@.len() == b@.len(),
            forall|j: int| 0 <= j < i ==> a@[j] == b@[j],
        decreases a@.len() - i,
    {
        if a[i] != b[i] {
            return false;
        }
        i = i + 1;
    }
    proof {
        assert(a@ =~= b@);
    }
    true
}

/// Whether two sequences of byte strings are equal, position by position.
pub fn eq_bin_values(a: &Vec<Vec<u8>>, b: &Vec<Vec<u8>>) -> (r: bool)
    ensures
        r == (bin_views(a@) == bin_views(b@)),
{
    if a.len() != b.len() {
        proof {
            assert(bin_views(a@).len() != bin_views(b@).len());
        }
        return false;
    }
    let mut i: usize = 0;
    while i < a.len()
        invariant
            0 <= i <= a@.len(),
            a@.len() == b@.len(),
            forall|j: int| 0 <= j < i ==> bin_views(a@)[j] == bin_views(b@)[j],
        decreases a@.len() - i,
    {
        if !eq_bytes(&a[i], &b[i]) {
            proof {
                assert(bin_views(a@)[i as int] != bin_views(b@)[i as int]);
            }
            return false;
        }
        i = i + 1;
    }
    proof {
        assert(bin_views(a@) =~= bin_views(b@));
    }
    true
}

/// Whether two sequences of strings are equal, position by position.
pub fn eq_str_values(a: &Vec<String>, b: &Vec<String>) -> (r: bool)
    ensures
        r == (str_views(a@) == str_views(b@)),
{
    if a.len() != b.len() {
        proof {
            assert(str_views(a@).len() != str_views(b@).len());
        }
        return false;
    }
    let mut i: usize = 0;
    while i < a.len()
        invariant
            0 <= i <= a@.len(),
            a@.len() == b@.len(),
            forall|j: int| 0 <= j < i ==> str_views(a@)[j] == str_views(b@)[j],
        decreases a@.len() - i,
    {
        if !a[i].eq(&b[i]) {
            proof {
                assert(str_views(a@)[i as int] != str_views(b@)[i as int]);
            }
            return false;
        }
        i = i + 1;
    }
    proof {
        assert(str_views(a@) =~= str_views(b@));
    }
    true
}

/// Whether `a` and `b` hold the same values with the same multiplicities,
/// in any order.
pub fn values_equal_any_order(a: &Vec<String>, b: &Vec<String>) -> (r: bool)
    ensures
        r == same_multiset(str_views(a@), str_views(b@)),
{
    let ghost av = str_views(a@);
    let ghost bv = str_views(b@);
    let mut i: usize = 0;
    while i < a.len()
        invariant
            0 <= i <= a@.len(),
            av == str_views(a@),
            bv == str_views(b@),
            forall|j: int| 0 <= j < i ==> #[trigger] count_seqs(av, av[j]) == count_seqs(bv, av[j]),
        decreases a@.len() - i,
    {
        let ca = count_matching(a, &a[i]);
        let cb = count_matching(b, &a[i]);
        if ca != cb {
            proof {
                assert(count_seqs(av, av[i as int]) != count_seqs(bv, av[i as int]));
            }
            return false;
        }
        i = i + 1;
    }
    let mut k: usize = 0;
    while k < b.len()
        invariant
            0 <= k <= b@.len(),
            av == str_views(a@),
            bv == str_views(b@),
            forall|j: int|
                0 <= j < av.len() ==> #[trigger] count_seqs(av, av[j]) == count_seqs(bv, av[j]),
            forall|j: int| 0 <= j < k ==> #[trigger] count_seqs(av, bv[j]) == count_seqs(bv, bv[j]),
        decreases b@.len() - k,
    {
        let ca = count_matching(a, &b[k]);
        let cb = count_matching(b, &b[k]);
        if ca != cb {
            proof {
                assert(count_seqs(av, bv[k as int]) != count_seqs(bv, bv[k as int]));
            }
            return false;
        }
        k = k + 1;
    }
    proof {
        assert forall|x: Seq<char>| #[trigger] count_seqs(av, x) == count_seqs(bv, x) by {
            lemma_count_pos(av, x);
            lemma_count_pos(bv, x);
            if count_seqs(av, x) > 0 {
                let i = choose|i: int| 0 <= i < av.len() && av[i] == x;
                assert(count_seqs(av, av[i]) == count_seqs(bv, av[i]));
            } else if count_seqs(bv, x) > 0 {
                let j = choose|j: int| 0 <= j < bv.len() && bv[j] == x;
                assert(count_seqs(av, bv[j]) == count_seqs(bv, bv[j]));
            }
        }
    }
    true
}

/// The first-occurrence deduplication of `ss`: each value keeps its first
/// position and later repetitions are dropped.
pub open spec fn dedup_seqs<T>(ss: Seq<Seq<T>>) -> Seq<Seq<T>>
    decreases ss.len(),
{
    if ss.len() == 0 {
        Seq::empty()
    } else {
        let rest = dedup_seqs(ss.drop_last());
        if count_seqs(ss.drop_last(), ss.last()) > 0 {
            rest
        } else {
            rest.push(ss.last())
        }
    }
}

/// Deduplication never invents or loses values, it only drops repetitions.
pub proof fn lemma_dedup_mem<T>(ss: Seq<Seq<T>>, x: Seq<T>)
    ensures
        count_seqs(dedup_seqs(ss), x) > 0 <==> count_seqs(ss, x) > 0,
    decreases ss.len(),
{
    if ss.len() > 0 {
        lemma_dedup_mem(ss.drop_last(), x);
        lemma_count_pos(ss, x);
        lemma_count_pos(ss.drop_last(), x);
        lemma_count_pos(dedup_seqs(ss), x);
        lemma_count_pos(dedup_seqs(ss.drop_last()), x);
        if count_seqs(ss.drop_last(), ss.last()) > 0 {
            if count_seqs(ss, x) > 0 {
                let i = choose|i: int| 0 <= i < ss.len() && ss[i] == x;
                if i == ss.len() - 1 {
                    lemma_count_pos(ss.drop_last(), ss.last());
                } else {
                    assert(ss.drop_last()[i] == x);
                }
            }
        } else {
            let prev = dedup_seqs(ss.drop_last());
            lemma_count_push(prev, ss.last(), x);
            if count_seqs(ss, x) > 0 && ss.last() != x {
                let i = choose|i: int| 0 <= i < ss.len() && ss[i] == x;
                assert(ss.drop_last()[i] == x);
            }
            if count_seqs(ss.drop_last(), x) > 0 {
                let i = choose|i: int| 0 <= i < ss.len() - 1 && ss.drop_last()[i] == x;
                assert(ss[i] == x);
            }
        }
    }
}

/// Copies a byte string.
pub fn clone_bytes(v: &Vec<u8>) -> (r: Vec<u8>)
    ensures
        r@ == v@,
{
    let r = v.clone();
    proof {
        assert(r@ =~= v@);
    }
    r
}

/// Drops every value of `vs` that already occurred at an earlier position.
pub fn dedup_values(vs: &Vec<String>) -> (r: Vec<String>)
    ensures
        str_views(r@) == dedup_seqs(str_views(vs@)),
{
    let ghost vv = str_views(vs@);
    let mut r: Vec<String> = Vec::new();
    let mut i: usize = 0;
    proof {
        assert(vv.take(0) =~= Seq::<Seq<char>>::empty());
        assert(str_views(r@) =~= dedup_seqs(vv.take(0)));
    }
    while i < vs.len()
        invariant
            0 <= i <= vs@.len(),
            vv == str_views(vs@),
            str_views(r@) == dedup_seqs(vv.take(i as int)),
        decreases vs@.len() - i,
    {
        let ghost pre = vv.take(i as int);
        let n = count_matching(&r, &vs[i]);
        proof {
            assert(vv.take(i + 1).drop_last() =~= pre);
            assert(vv.take(i + 1).last() == vv[i as int]);
            lemma_dedup_mem(pre, vv[i as int]);
        }
        if n == 0 {
            let ghost old_r = r@;
            r.push(vs[i].clone());
            proof {
                assert(str_views(r@) =~= str_views(old_r).push(vv[i as int]));
            }
        }
        i = i + 1;
    }
    proof {
        assert(vv.take(vs@.len() as int) =~= vv);
    }
    r
}

/// Drops every byte string of `vs` that already occurred earlier.
pub fn dedup_bin_values(vs: &Vec<Vec<u8>>) -> (r: Vec<Vec<u8>>)
    ensures
        bin_views(r@) == dedup_seqs(bin_views(vs@)),
{
    let ghost vv = bin_views(vs@);
    let mut r: Vec<Vec<u8>> = Vec::new();
    let mut i: usize = 0;
    proof {
        assert(vv.take(0) =~= Seq::<Seq<u8>>::empty());
        assert(bin_views(r@) =~= dedup_seqs(vv.take(0)));
    }
    while i < vs.len()
        invariant
            0 <= i <= vs@.len(),
            vv == bin_views(vs@),
            bin_views(r@) == dedup_seqs(vv.take(i as int)),
        decreases vs@.len() - i,
    {
        let ghost pre = vv.take(i as int);
        let n = count_matching_bin(&r, &vs[i]);
        proof {
            assert(vv.take(i + 1).drop_last() =~= pre);
            assert(vv.take(i + 1).last() == vv[i as int]);
            lemma_dedup_mem(pre, vv[i as int]);
        }
        if n == 0 {
            let ghost old_r = r@;
            let c = clone_bytes(&vs[i]);
            r.push(c);
            proof {
                assert(bin_views(r@) =~= bin_views(old_r).push(vv[i as int]));
            }
        }
        i = i + 1;
    }
    proof {
        assert(vv.take(vs@.len() as int) =~= vv);
    }
    r
}

} // verus!
