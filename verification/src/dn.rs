//! Distinguished names as comma-separated component lists: splitting,
//! reverse-component ordering (roots compare least), and the ancestor
//! relation that drives operation sequencing.
use vstd::prelude::*;
use crate::text::{chars_cmp, lemma_chars_cmp_zero, lemma_chars_cmp_antisym, str_cmp};
use crate::values::str_views;

verus! {

/// Index of the first comma in `s`, or a negative value when there is none.
pub open spec fn first_comma(s: Seq<char>) -> int
    decreases s.len(),
{
    if s.len() == 0 {
        -1int
    } else if s[0] == ',' {
        0int
    } else {
        let r = first_comma(s.drop_first());
        if r < 0 {
            -1int
        } else {
            r + 1
        }
    }
}

pub proof fn lemma_first_comma(s: Seq<char>)
    ensures
        -1 <= first_comma(s) < s.len(),
        first_comma(s) >= 0 ==> s[first_comma(s)] == ',',
        forall|j: int| 0 <= j < first_comma(s) ==> s[j] != ',',
        first_comma(s) == -1 ==> forall|j: int| 0 <= j < s.len() ==> s[j] != ',',
    decreases s.len(),
{
    if s.len() > 0 && s[0] != ',' {
        lemma_first_comma(s.drop_first());
        let r = first_comma(s.drop_first());
        if r >= 0 {
            assert(s[first_comma(s)] == ',') by {
                assert(s.drop_first()[r] == s[r + 1]);
            }
            assert forall|j: int| 0 <= j < first_comma(s) implies s[j] != ',' by {
                if j > 0 {
                    assert(s.drop_first()[j - 1] == s[j]);
                }
            }
        } else {
            assert forall|j: int| 0 <= j < s.len() implies s[j] != ',' by {
                if j > 0 {
                    assert(s.drop_first()[j - 1] == s[j]);
                }
            }
        }
    }
}

/// The position of the first comma, established from pointwise facts.
pub proof fn lemma_first_comma_is(s: Seq<char>, k: int)
    requires
        0 <= k < s.len(),
        s[k] == ',',
        forall|j: int| 0 <= j < k ==> s[j] != ',',
    ensures
        first_comma(s) == k,
    decreases k,
{
    if k > 0 {
        lemma_first_comma_is(s.drop_first(), k - 1);
    }
}

pub proof fn lemma_first_comma_none(s: Seq<char>)
    requires
        forall|j: int| 0 <= j < s.len() ==> s[j] != ',',
    ensures
        first_comma(s) == -1,
    decreases s.len(),
{
    if s.len() > 0 {
        lemma_first_comma_none(s.drop_first());
    }
}

/// The comma-separated components of a DN, in writing order: most specific
/// first, root last. The empty string has a single empty component.
pub open spec fn split_rdns(s: Seq<char>) -> Seq<Seq<char>>
    decreases s.len(),
{
    let i = first_comma(s);
    if i < 0 || i >= s.len() {
        seq![s]
    } else {
        seq![s.take(i)] + split_rdns(s.skip(i + 1))
    }
}

/// Splits a DN into its comma-separated components.
pub fn split_dn(s: &String) -> (r: Vec<String>)
    ensures
        str_views(r@) == split_rdns(s@),
{
    let s_len = s.as_str().unicode_len();
    let mut out: Vec<String> = Vec::new();
    let mut seg_start: usize = 0;
    let mut i: usize = 0;
    proof {
        assert(s@.skip(0) =~= s@);
        assert(str_views(out@) =~= Seq::<Seq<char>>::empty());
        assert(Seq::<Seq<char>>::empty() + split_rdns(s@) =~= split_rdns(s@));
    }
    while i < s_len
        invariant
            0 <= seg_start <= i <= s_len,
            s_len == s@.len(),
            forall|j: int| seg_start <= j < i ==> s@[j] != ',',
            split_rdns(s@) =~= str_views(out@) + split_rdns(s@.skip(seg_start as int)),
        decreases s_len - i,
    {
        let c = s.as_str().get_char(i);
        if c == ',' {
            let ghost rest = s@.skip(seg_start as int);
            let seg = s.as_str().substring_char(seg_start, i).to_owned();
            let ghost old_out = out@;
            out.push(seg);
            proof {
                assert(rest[i - seg_start] == ',');
                assert(forall|j: int| 0 <= j < i - seg_start ==> rest[j] != ',');
                lemma_first_comma_is(rest, i - seg_start);
                assert(rest.take(i - seg_start) =~= s@.subrange(seg_start as int, i as int));
                assert(rest.skip(i - seg_start + 1) =~= s@.skip(i + 1));
                assert(split_rdns(rest) =~= seq![s@.subrange(seg_start as int, i as int)]
                    + split_rdns(s@.skip(i + 1)));
                assert(str_views(out@) =~= str_views(old_out).push(
                    s@.subrange(seg_start as int, i as int),
                ));
            }
            seg_start = i + 1;
        }
        i = i + 1;
    }
    let ghost rest = s@.skip(seg_start as int);
    let seg = s.as_str().substring_char(seg_start, s_len).to_owned();
    let ghost old_out = out@;
    out.push(seg);
    proof {
        lemma_first_comma_none(rest);
        assert(split_rdns(rest) =~= seq![rest]);
        assert(rest =~= s@.subrange(seg_start as int, s_len as int));
        assert(str_views(out@) =~= str_views(old_out).push(rest));
        assert(str_views(out@) =~= split_rdns(s@));
    }
    out
}

/// Three-way comparison of two component lists, from the root end: the
/// common trailing components decide first, and when one list is a suffix of
/// the other, the shorter (the ancestor) orders first.
pub open spec fn cmp_rdn_lists(x: Seq<Seq<char>>, y: Seq<Seq<char>>) -> int
    decreases x.len(),
{
    if x.len() == 0 || y.len() == 0 {
        if x.len() < y.len() {
            -1int
        } else if x.len() > y.len() {
            1int
        } else {
            0int
        }
    } else {
        let c = chars_cmp(x.last(), y.last());
        if c != 0 {
            c
        } else {
            cmp_rdn_lists(x.drop_last(), y.drop_last())
        }
    }
}

/// Three-way comparison of two DNs: roots compare least, so an ancestor
/// orders before each of its descendants.
pub open spec fn dn_cmp(a: Seq<char>, b: Seq<char>) -> int {
    cmp_rdn_lists(split_rdns(a), split_rdns(b))
}

pub proof fn lemma_cmp_rdn_lists_antisym(x: Seq<Seq<char>>, y: Seq<Seq<char>>)
    ensures
        cmp_rdn_lists(x, y) == -cmp_rdn_lists(y, x),
    decreases x.len(),
{
    if x.len() != 0 && y.len() != 0 {
        lemma_chars_cmp_antisym(x.last(), y.last());
        lemma_cmp_rdn_lists_antisym(x.drop_last(), y.drop_last());
    }
}

pub proof fn lemma_cmp_rdn_lists_zero(x: Seq<Seq<char>>, y: Seq<Seq<char>>)
    ensures
        cmp_rdn_lists(x, y) == 0 <==> x == y,
    decreases x.len(),
{
    if x.len() == 0 || y.len() == 0 {
        if x.len() == y.len() {
            assert(x =~= y);
        }
    } else {
        lemma_chars_cmp_zero(x.last(), y.last());
        lemma_cmp_rdn_lists_zero(x.drop_last(), y.drop_last());
        if cmp_rdn_lists(x, y) == 0 {
            assert(x.drop_last() == y.drop_last() && x.last() == y.last());
            assert(x =~= x.drop_last().push(x.last()));
            assert(y =~= y.drop_last().push(y.last()));
        }
        if x == y {
            assert(x.drop_last() =~= y.drop_last());
        }
    }
}

pub proof fn lemma_cmp_rdn_lists_trans(x: Seq<Seq<char>>, y: Seq<Seq<char>>, z: Seq<Seq<char>>)
    requires
        cmp_rdn_lists(x, y) < 0,
        cmp_rdn_lists(y, z) < 0,
    ensures
        cmp_rdn_lists(x, z) < 0,
    decreases x.len() + y.len() + z.len(),
{
    if x.len() == 0 || y.len() == 0 || z.len() == 0 {
        if x.len() != 0 && z.len() != 0 {
            assert(y.len() == 0);
            assert(false);
        }
    } else {
        let c1 = crate::text::chars_cmp(x.last(), y.last());
        let c2 = crate::text::chars_cmp(y.last(), z.last());
        lemma_chars_cmp_zero(x.last(), y.last());
        lemma_chars_cmp_zero(y.last(), z.last());
        lemma_chars_cmp_zero(x.last(), z.last());
        if c1 < 0 && c2 < 0 {
            crate::text::lemma_chars_cmp_trans(x.last(), y.last(), z.last());
        } else if c1 == 0 && c2 == 0 {
            lemma_cmp_rdn_lists_trans(x.drop_last(), y.drop_last(), z.drop_last());
        } else if c1 == 0 {
            assert(x.last() == y.last());
        } else if c2 == 0 {
            assert(y.last() == z.last());
        }
    }
}

/// The DN ordering is a total order: comparisons are antisymmetric and
/// transitive, and two DNs that compare equal are the same string.
pub proof fn lemma_dn_cmp_total(a: Seq<char>, b: Seq<char>, c: Seq<char>)
    ensures
        dn_cmp(a, b) == -dn_cmp(b, a),
        dn_cmp(a, b) < 0 && dn_cmp(b, c) < 0 ==> dn_cmp(a, c) < 0,
        dn_cmp(a, b) == 0 ==> split_rdns(a) == split_rdns(b),
{
    lemma_cmp_rdn_lists_antisym(split_rdns(a), split_rdns(b));
    lemma_cmp_rdn_lists_zero(split_rdns(a), split_rdns(b));
    if dn_cmp(a, b) < 0 && dn_cmp(b, c) < 0 {
        lemma_cmp_rdn_lists_trans(split_rdns(a), split_rdns(b), split_rdns(c));
    }
}

/// `p` is a proper ancestor of `c`: its component list is a proper suffix of
/// the component list of `c`.
pub open spec fn is_ancestor_rdns(p: Seq<Seq<char>>, c: Seq<Seq<char>>) -> bool {
    p.len() < c.len() && c.skip(c.len() - p.len()) == p
}

/// `p` is a proper ancestor of `c` in the directory tree.
pub open spec fn dn_is_ancestor(p: Seq<char>, c: Seq<char>) -> bool {
    is_ancestor_rdns(split_rdns(p), split_rdns(c))
}

/// An ancestor orders strictly before each of its descendants.
pub proof fn lemma_ancestor_orders_first(p: Seq<Seq<char>>, c: Seq<Seq<char>>)
    requires
        is_ancestor_rdns(p, c),
    ensures
        cmp_rdn_lists(p, c) < 0,
    decreases p.len(),
{
    if p.len() == 0 {
        assert(cmp_rdn_lists(p, c) == -1);
    } else {
        assert(c.skip(c.len() - p.len()).last() == p.last());
        assert(c.last() == p.last()) by {
            assert(c.skip(c.len() - p.len())[p.len() - 1] == c[c.len() - 1]);
        }
        lemma_chars_cmp_zero(p.last(), c.last());
        assert(is_ancestor_rdns(p.drop_last(), c.drop_last())) by {
            assert(c.drop_last().skip(c.len() - p.len()) =~= c.skip(c.len() - p.len()).drop_last());
        }
        lemma_ancestor_orders_first(p.drop_last(), c.drop_last());
    }
}

/// Equal trailing components do not affect the comparison of the rest.
proof fn lemma_cmp_rdn_lists_droptail(x: Seq<Seq<char>>, y: Seq<Seq<char>>, t: int)
    requires
        0 <= t <= x.len(),
        t <= y.len(),
        forall|k: int| #![trigger x[k]] x.len() - t <= k < x.len() ==> x[k] == y[k + y.len()
            - x.len()],
    ensures
        cmp_rdn_lists(x, y) == cmp_rdn_lists(x.take(x.len() - t), y.take(y.len() - t)),
    decreases t,
{
    if t == 0 {
        assert(x.take(x.len() - 0) =~= x);
        assert(y.take(y.len() - 0) =~= y);
    } else {
        assert(x.len() > 0 && y.len() > 0);
        assert(x.last() == y.last()) by {
            assert(x[x.len() - 1] == y[x.len() - 1 + y.len() - x.len()]);
        }
        lemma_chars_cmp_zero(x.last(), y.last());
        assert(cmp_rdn_lists(x, y) == cmp_rdn_lists(x.drop_last(), y.drop_last()));
        let xd = x.drop_last();
        let yd = y.drop_last();
        assert forall|k: int| #![trigger xd[k]] xd.len() - (t - 1) <= k < xd.len() implies xd[k]
            == yd[k + yd.len() - xd.len()] by {
            assert(xd[k] == x[k]);
            assert(yd[k + yd.len() - xd.len()] == y[k + y.len() - x.len()]);
            assert(x[k] == y[k + y.len() - x.len()]);
        }
        lemma_cmp_rdn_lists_droptail(xd, yd, t - 1);
        assert(xd.take(x.len() - t) =~= x.take(x.len() - t));
        assert(yd.take(y.len() - t) =~= y.take(y.len() - t));
    }
}

/// Three-way comparison of two DNs given as strings.
pub fn compare_dns(a: &String, b: &String) -> (r: i8)
    ensures
        r as int == dn_cmp(a@, b@),
{
    let xs = split_dn(a);
    let ys = split_dn(b);
    let ghost xv = split_rdns(a@);
    let ghost yv = split_rdns(b@);
    let xn = xs.len();
    let yn = ys.len();
    let min: usize = if xn < yn {
        xn
    } else {
        yn
    };
    let mut t: usize = 0;
    while t < min
        invariant
            0 <= t <= min,
            min <= xn,
            min <= yn,
            min == if xn < yn {
                xn
            } else {
                yn
            },
            xn == xv.len(),
            yn == yv.len(),
            xv == split_rdns(a@),
            yv == split_rdns(b@),
            str_views(xs@) == xv,
            str_views(ys@) == yv,
            xs@.len() == xn,
            ys@.len() == yn,
            forall|k: int| #![trigger xv[k]] xn - t <= k < xn ==> xv[k] == yv[k + yn - xn],
        decreases min - t,
    {
        let c = str_cmp(&xs[xn - 1 - t], &ys[yn - 1 - t]);
        if c != 0 {
            proof {
                lemma_cmp_rdn_lists_droptail(xv, yv, t as int);
                let xt = xv.take(xv.len() - t);
                let yt = yv.take(yv.len() - t);
                assert(xt.last() == xv[xn - 1 - t]);
                assert(yt.last() == yv[yn - 1 - t]);
                assert(xv[xn - 1 - t] == xs@[xn - 1 - t]@);
                assert(yv[yn - 1 - t] == ys@[yn - 1 - t]@);
                assert(chars_cmp(xt.last(), yt.last()) == c as int);
                assert(xt.len() != 0 && yt.len() != 0);
                assert(cmp_rdn_lists(xt, yt) == c as int);
                assert(dn_cmp(a@, b@) == c as int);
            }
            return c;
        }
        proof {
            lemma_chars_cmp_zero(xv[xn - 1 - t], yv[yn - 1 - t]);
            assert(xv[xn - 1 - t] == yv[(xn - 1 - t) + yn - xn]);
        }
        t = t + 1;
    }
    proof {
        lemma_cmp_rdn_lists_droptail(xv, yv, min as int);
        let xt = xv.take(xv.len() - min);
        let yt = yv.take(yv.len() - min);
        assert(xt.len() == 0 || yt.len() == 0);
    }
    if xn < yn {
        -1
    } else if xn > yn {
        1
    } else {
        0
    }
}

/// Whether the DN `p` is a proper ancestor of the DN `c`.
pub fn dn_ancestor_of(p: &String, c: &String) -> (r: bool)
    ensures
        r == dn_is_ancestor(p@, c@),
{
    let ps = split_dn(p);
    let cs = split_dn(c);
    let ghost pv = split_rdns(p@);
    let ghost cv = split_rdns(c@);
    let pn = ps.len();
    let cn = cs.len();
    if pn >= cn {
        return false;
    }
    let mut j: usize = 0;
    while j < pn
        invariant
            0 <= j <= pn,
            pn < cn,
            pn == pv.len(),
            cn == cv.len(),
            pv == split_rdns(p@),
            cv == split_rdns(c@),
            str_views(ps@) == pv,
            str_views(cs@) == cv,
            ps@.len() == pn,
            cs@.len() == cn,
            forall|k: int| #![trigger pv[k]] pn - j <= k < pn ==> pv[k] == cv[k + cn - pn],
        decreases pn - j,
    {
        let c0 = str_cmp(&ps[pn - 1 - j], &cs[cn - 1 - j]);
        proof {
            lemma_chars_cmp_zero(pv[pn - 1 - j], cv[cn - 1 - j]);
        }
        if c0 != 0 {
            proof {
                assert(pv[pn - 1 - j] == ps@[pn - 1 - j]@);
                assert(cv[cn - 1 - j] == cs@[cn - 1 - j]@);
                assert(chars_cmp(pv[pn - 1 - j], cv[cn - 1 - j]) != 0);
                assert(pv[pn - 1 - j] != cv[cn - 1 - j]);
                if is_ancestor_rdns(pv, cv) {
                    assert(cv.skip(cn - pn) == pv);
                    assert(cv.skip(cn - pn)[pn - 1 - j] == cv[cn - pn + (pn - 1 - j)]);
                    assert(pv[pn - 1 - j] == cv[cn - 1 - j]);
                }
                assert(!dn_is_ancestor(p@, c@));
            }
            return false;
        }
        proof {
            assert(pv[pn - 1 - j] == cv[(pn - 1 - j) + cn - pn]);
        }
        j = j + 1;
    }
    proof {
        assert(cv.skip(cn - pn) =~= pv) by {
            assert(forall|k: int| #![trigger cv.skip(cn - pn)[k]] 0 <= k < pn ==> cv.skip(
                cn - pn,
            )[k] == cv[cn - pn + k]);
        }
    }
    true
}

} // verus!
