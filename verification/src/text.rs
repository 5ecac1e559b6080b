//! Character-sequence utilities: lexicographic comparison, substring search,
//! and literal substitution, the textual core of DN rewriting.
use vstd::prelude::*;

verus! {

broadcast use vstd::utf8::char_u32_cast, vstd::utf8::char_is_scalar;

/// Two characters with the same code point are the same character.
pub proof fn lemma_char_cast_injective(c1: char, c2: char)
    requires
        (c1 as u32) == (c2 as u32),
    ensures
        c1 == c2,
{
    vstd::utf8::char_u32_cast(c1, c1 as u32);
    vstd::utf8::char_u32_cast(c2, c2 as u32);
}

/// Three-way lexicographic comparison of two character sequences by code
/// point: negative when `a` orders first, zero when equal, positive when `b`
/// orders first.
pub open spec fn chars_cmp(a: Seq<char>, b: Seq<char>) -> int
    decreases a.len(),
{
    if a.len() == 0 && b.len() == 0 {
        0int
    } else if a.len() == 0 {
        -1int
    } else if b.len() == 0 {
        1int
    } else if (a[0] as u32) < (b[0] as u32) {
        -1int
    } else if (a[0] as u32) > (b[0] as u32) {
        1int
    } else {
        chars_cmp(a.drop_first(), b.drop_first())
    }
}

pub proof fn lemma_chars_cmp_zero(a: Seq<char>, b: Seq<char>)
    ensures
        chars_cmp(a, b) == 0 <==> a == b,
    decreases a.len(),
{
    if a.len() == 0 && b.len() == 0 {
        assert(a =~= b);
    } else if a.len() != 0 && b.len() != 0 && (a[0] as u32) == (b[0] as u32) {
        lemma_chars_cmp_zero(a.drop_first(), b.drop_first());
        lemma_char_cast_injective(a[0], b[0]);
        assert(a[0] == b[0]);
        if a.drop_first() == b.drop_first() && a[0] == b[0] {
            assert forall|i: int| 0 <= i < a.len() implies a[i] == b[i] by {
                if i > 0 {
                    assert(a.drop_first()[i - 1] == b.drop_first()[i - 1]);
                }
            }
            assert(a =~= b);
        }
        if a == b {
            assert(a.drop_first() =~= b.drop_first());
        }
    } else {
        if a == b {
            assert(a.len() == b.len());
        }
    }
}

pub proof fn lemma_chars_cmp_antisym(a: Seq<char>, b: Seq<char>)
    ensures
        chars_cmp(a, b) == -chars_cmp(b, a),
    decreases a.len(),
{
    if a.len() != 0 && b.len() != 0 {
        lemma_chars_cmp_antisym(a.drop_first(), b.drop_first());
    }
}

pub proof fn lemma_chars_cmp_trans(a: Seq<char>, b: Seq<char>, c: Seq<char>)
    requires
        chars_cmp(a, b) < 0,
        chars_cmp(b, c) < 0,
    ensures
        chars_cmp(a, c) < 0,
    decreases a.len(),
{
    if a.len() == 0 {
        assert(b.len() != 0);
        assert(c.len() != 0);
    } else {
        assert(b.len() != 0);
        assert(c.len() != 0);
        if (a[0] as u32) == (b[0] as u32) && (b[0] as u32) == (c[0] as u32) {
            lemma_char_cast_injective(a[0], b[0]);
            lemma_char_cast_injective(b[0], c[0]);
            lemma_chars_cmp_trans(a.drop_first(), b.drop_first(), c.drop_first());
        }
    }
}

/// Equal prefixes of length `i` do not affect the comparison of the rest.
pub proof fn lemma_chars_cmp_skip(a: Seq<char>, b: Seq<char>, i: int)
    requires
        0 <= i <= a.len(),
        i <= b.len(),
        forall|j: int| 0 <= j < i ==> a[j] == b[j],
    ensures
        chars_cmp(a, b) == chars_cmp(a.skip(i), b.skip(i)),
    decreases i,
{
    if i > 0 {
        assert((a[0] as u32) == (b[0] as u32));
        lemma_chars_cmp_skip(a.drop_first(), b.drop_first(), i - 1);
        assert(a.drop_first().skip(i - 1) =~= a.skip(i));
        assert(b.drop_first().skip(i - 1) =~= b.skip(i));
    } else {
        assert(a.skip(0) =~= a);
        assert(b.skip(0) =~= b);
    }
}

/// Three-way comparison of two strings, by code point.
pub fn str_cmp(a: &String, b: &String) -> (r: i8)
    ensures
        r as int == chars_cmp(a@, b@),
{
    let a_len = a.as_str().unicode_len();
    let b_len = b.as_str().unicode_len();
    let mut i: usize = 0;
    let min: usize = if a_len < b_len {
        a_len
    } else {
        b_len
    };
    while i < min
        invariant
            0 <= i <= min,
            min <= a@.len(),
            min <= b@.len(),
            min == if a@.len() < b@.len() {
                a@.len()
            } else {
                b@.len()
            },
            a_len == a@.len(),
            b_len == b@.len(),
            forall|j: int| 0 <= j < i ==> a@[j] == b@[j],
        decreases min - i,
    {
        let ca = a.as_str().get_char(i);
        let cb = b.as_str().get_char(i);
        if (ca as u32) < (cb as u32) {
            proof {
                lemma_chars_cmp_skip(a@, b@, i as int);
            }
            return -1;
        }
        if (ca as u32) > (cb as u32) {
            proof {
                lemma_chars_cmp_skip(a@, b@, i as int);
            }
            return 1;
        }
        proof {
            assert((ca as u32) == (cb as u32));
            assert(ca == cb);
        }
        i = i + 1;
    }
    proof {
        lemma_chars_cmp_skip(a@, b@, min as int);
    }
    if a_len < b_len {
        -1
    } else if a_len > b_len {
        1
    } else {
        0
    }
}

/// Whether `pat` occurs in `s` starting at position `i`.
pub open spec fn matches_at(s: Seq<char>, pat: Seq<char>, i: int) -> bool {
    &&& 0 <= i
    &&& i + pat.len() <= s.len()
    &&& s.subrange(i, i + pat.len()) == pat
}

/// Whether `pat` occurs anywhere in `s`.
pub open spec fn contains_seq(s: Seq<char>, pat: Seq<char>) -> bool {
    exists|i: int| matches_at(s, pat, i)
}

/// Whether `pat` occurs in `s` as a suffix.
pub open spec fn ends_with(s: Seq<char>, pat: Seq<char>) -> bool {
    pat.len() <= s.len() && s.skip(s.len() - pat.len()) == pat
}

/// Compares the characters of `s` at offset `i` against all of `pat`.
pub fn has_match_at(s: &String, pat: &String, i: usize) -> (r: bool)
    requires
        i <= s@.len(),
    ensures
        r == matches_at(s@, pat@, i as int),
{
    let s_len = s.as_str().unicode_len();
    let pat_len = pat.as_str().unicode_len();
    if pat_len > s_len - i {
        return false;
    }
    let mut j: usize = 0;
    while j < pat_len
        invariant
            0 <= j <= pat_len,
            pat_len == pat@.len(),
            s_len == s@.len(),
            i + pat_len <= s_len,
            forall|k: int| 0 <= k < j ==> s@[i + k] == pat@[k],
        decreases pat_len - j,
    {
        let cs = s.as_str().get_char(i + j);
        let cp = pat.as_str().get_char(j);
        if cs != cp {
            assert(s@.subrange(i as int, i + pat@.len()) != pat@) by {
                assert(s@.subrange(i as int, i + pat@.len())[j as int] != pat@[j as int]);
            }
            return false;
        }
        j = j + 1;
    }
    assert(s@.subrange(i as int, i + pat@.len()) =~= pat@);
    true
}

/// The case folding of a character sequence, as performed by the standard
/// library's Unicode lowercase mapping. It depends on the characters alone.
pub uninterp spec fn lower_of(s: Seq<char>) -> Seq<char>;

/// Relies on `str::to_lowercase` from std: the result is a pure function of
/// the input characters, named `lower_of`.
#[verifier::external_body]
pub fn to_lowercase(s: &String) -> (r: String)
    ensures
        r@ == lower_of(s@),
{
    s.to_lowercase()
}

/// The result of substituting every occurrence of `from` in `s` with `to`,
/// scanning left to right and never re-examining substituted text. An empty
/// `from` never matches, so it leaves `s` unchanged.
pub open spec fn replace_seq(s: Seq<char>, from: Seq<char>, to: Seq<char>) -> Seq<char>
    decreases s.len(),
{
    if from.len() == 0 || s.len() == 0 {
        s
    } else if matches_at(s, from, 0) {
        to + replace_seq(s.skip(from.len() as int), from, to)
    } else {
        seq![s[0]] + replace_seq(s.drop_first(), from, to)
    }
}

/// Substitutes every occurrence of `from` in `s` with `to`, scanning left to
/// right. When `from` is empty the result is `s` itself.
pub fn replace_all(s: &String, from: &String, to: &String) -> (r: String)
    ensures
        r@ == replace_seq(s@, from@, to@),
{
    let s_len = s.as_str().unicode_len();
    let from_len = from.as_str().unicode_len();
    if from_len == 0 {
        let r = s.clone();
        assert(replace_seq(s@, from@, to@) == s@);
        return r;
    }
    let mut r = String::new();
    let mut i: usize = 0;
    proof {
        assert(s@.skip(0) =~= s@);
        assert(Seq::<char>::empty() + replace_seq(s@, from@, to@) =~= replace_seq(
            s@,
            from@,
            to@,
        ));
    }
    while i < s_len
        invariant
            0 <= i <= s_len,
            s_len == s@.len(),
            from_len == from@.len(),
            from_len > 0,
            replace_seq(s@, from@, to@) == r@ + replace_seq(s@.skip(i as int), from@, to@),
        decreases s_len - i,
    {
        let ghost prev_r = r@;
        let ghost rest = s@.skip(i as int);
        if has_match_at(s, from, i) {
            r.append(to.as_str());
            i = i + from_len;
            proof {
                assert(matches_at(rest, from@, 0)) by {
                    assert(rest.subrange(0, from@.len() as int) =~= s@.subrange(
                        i - from@.len(),
                        i as int,
                    ));
                }
                assert(replace_seq(rest, from@, to@) == to@ + replace_seq(
                    s@.skip(i as int),
                    from@,
                    to@,
                )) by {
                    assert(rest.skip(from@.len() as int) =~= s@.skip(i as int));
                }
                assert(prev_r + (to@ + replace_seq(s@.skip(i as int), from@, to@)) =~= (prev_r
                    + to@) + replace_seq(s@.skip(i as int), from@, to@));
            }
        } else {
            let c = s.as_str().substring_char(i, i + 1);
            r.append(c);
            i = i + 1;
            proof {
                assert(!matches_at(rest, from@, 0)) by {
                    if matches_at(rest, from@, 0) {
                        assert(s@.subrange(i - 1, i - 1 + from@.len()) =~= rest.subrange(
                            0,
                            from@.len() as int,
                        ));
                    }
                }
                assert(replace_seq(rest, from@, to@) == seq![rest[0]] + replace_seq(
                    s@.skip(i as int),
                    from@,
                    to@,
                )) by {
                    assert(rest.drop_first() =~= s@.skip(i as int));
                }
                assert(c@ =~= seq![rest[0]]);
                assert(prev_r + (seq![rest[0]] + replace_seq(s@.skip(i as int), from@, to@))
                    =~= (prev_r + seq![rest[0]]) + replace_seq(s@.skip(i as int), from@, to@));
            }
        }
    }
    proof {
        assert(s@.skip(s@.len() as int) =~= Seq::<char>::empty());
        assert(replace_seq(Seq::<char>::empty(), from@, to@) == Seq::<char>::empty());
        assert(r@ + Seq::<char>::empty() =~= r@);
    }
    r
}

} // verus!
