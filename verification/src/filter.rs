//! Search filters as an abstract syntax tree: rewriting DN-valued terms
//! from the source naming context to the destination's, and rendering the
//! tree back to filter text.
use vstd::prelude::*;
use crate::schema::Schema;
use crate::text::{replace_seq, replace_all};

verus! {

/// A search filter over attribute names and string values.
pub enum Filter {
    /// Every sub-filter must match.
    And(Vec<Filter>),
    /// Some sub-filter must match.
    Or(Vec<Filter>),
    /// The sub-filter must not match.
    Not(Box<Filter>),
    /// Equality on the attribute's value.
    Equal { attribute_name: String, attribute_value: String },
    /// Approximate match on the attribute's value.
    Approx { attribute_name: String, attribute_value: String },
    /// Greater-or-equal match on the attribute's value.
    Greater { attribute_name: String, attribute_value: String },
    /// Less-or-equal match on the attribute's value.
    Less { attribute_name: String, attribute_value: String },
    /// Presence of the attribute.
    Present { attribute_name: String },
    /// Substring match; the value carries wildcards.
    Substring { attribute_name: String, attribute_value: String },
}

/// The mathematical shape of a search filter.
pub enum FilterV {
    And(Seq<FilterV>),
    Or(Seq<FilterV>),
    Not(Box<FilterV>),
    Equal(Seq<char>, Seq<char>),
    Approx(Seq<char>, Seq<char>),
    Greater(Seq<char>, Seq<char>),
    Less(Seq<char>, Seq<char>),
    Present(Seq<char>),
    Substring(Seq<char>, Seq<char>),
}

impl Filter {
    /// Number of nodes in the filter tree, the measure the executable
    /// recursion descends on.
    pub open spec fn node_count(self) -> nat
        decreases self,
    {
        match self {
            Filter::And(fs) => 1 + Self::list_node_count(fs@),
            Filter::Or(fs) => 1 + Self::list_node_count(fs@),
            Filter::Not(f) => 1 + f.node_count(),
            _ => 1,
        }
    }

    /// Total node count of a list of filters.
    pub open spec fn list_node_count(fs: Seq<Filter>) -> nat
        decreases fs,
    {
        if fs.len() == 0 {
            0
        } else {
            fs[0].node_count() + Self::list_node_count(fs.drop_first())
        }
    }

    /// The shape of the filter.
    pub open spec fn fv(self) -> FilterV
        decreases self,
    {
        match self {
            Filter::And(fs) => FilterV::And(Self::list_fv(fs@)),
            Filter::Or(fs) => FilterV::Or(Self::list_fv(fs@)),
            Filter::Not(f) => FilterV::Not(Box::new(f.fv())),
            Filter::Equal { attribute_name, attribute_value } => FilterV::Equal(
                attribute_name@,
                attribute_value@,
            ),
            Filter::Approx { attribute_name, attribute_value } => FilterV::Approx(
                attribute_name@,
                attribute_value@,
            ),
            Filter::Greater { attribute_name, attribute_value } => FilterV::Greater(
                attribute_name@,
                attribute_value@,
            ),
            Filter::Less { attribute_name, attribute_value } => FilterV::Less(
                attribute_name@,
                attribute_value@,
            ),
            Filter::Present { attribute_name } => FilterV::Present(attribute_name@),
            Filter::Substring { attribute_name, attribute_value } => FilterV::Substring(
                attribute_name@,
                attribute_value@,
            ),
        }
    }

    /// The shapes of a list of filters.
    pub open spec fn list_fv(fs: Seq<Filter>) -> Seq<FilterV>
        decreases fs,
    {
        if fs.len() == 0 {
            Seq::empty()
        } else {
            seq![fs[0].fv()] + Self::list_fv(fs.drop_first())
        }
    }
}

/// A member of a filter list counts toward the list's node count.
pub proof fn lemma_list_node_count_member(fs: Seq<Filter>, i: int)
    requires
        0 <= i < fs.len(),
    ensures
        fs[i].node_count() <= Filter::list_node_count(fs),
    decreases fs,
{
    if i > 0 {
        lemma_list_node_count_member(fs.drop_first(), i - 1);
    }
}

/// The shape list is the pointwise shape of the list.
pub proof fn lemma_list_fv_pointwise(fs: Seq<Filter>)
    ensures
        Filter::list_fv(fs).len() == fs.len(),
        forall|i: int| 0 <= i < fs.len() ==> #[trigger] Filter::list_fv(fs)[i] == fs[i].fv(),
    decreases fs,
{
    if fs.len() > 0 {
        lemma_list_fv_pointwise(fs.drop_first());
        assert forall|i: int| 0 <= i < fs.len() implies #[trigger] Filter::list_fv(fs)[i]
            == fs[i].fv() by {
            if i > 0 {
                assert(Filter::list_fv(fs)[i] == Filter::list_fv(fs.drop_first())[i - 1]);
                assert(fs.drop_first()[i - 1] == fs[i]);
            }
        }
    }
}

/// The filter with every DN-valued term re-rooted: where the schema gives
/// the term's attribute the DN syntax, the source base DN in its value is
/// substituted with the destination base DN. Presence terms and terms on
/// attributes of any other syntax are left alone.
pub open spec fn transform_fv(f: FilterV, schema: Schema, src: Seq<char>, dst: Seq<char>) -> FilterV
    decreases f,
{
    match f {
        FilterV::And(fs) => FilterV::And(transform_list(fs, schema, src, dst)),
        FilterV::Or(fs) => FilterV::Or(transform_list(fs, schema, src, dst)),
        FilterV::Not(g) => FilterV::Not(Box::new(transform_fv(*g, schema, src, dst))),
        FilterV::Equal(n, v) => if schema.dn_syntax_of(n) {
            FilterV::Equal(n, replace_seq(v, src, dst))
        } else {
            f
        },
        FilterV::Approx(n, v) => if schema.dn_syntax_of(n) {
            FilterV::Approx(n, replace_seq(v, src, dst))
        } else {
            f
        },
        FilterV::Greater(n, v) => if schema.dn_syntax_of(n) {
            FilterV::Greater(n, replace_seq(v, src, dst))
        } else {
            f
        },
        FilterV::Less(n, v) => if schema.dn_syntax_of(n) {
            FilterV::Less(n, replace_seq(v, src, dst))
        } else {
            f
        },
        FilterV::Present(n) => f,
        FilterV::Substring(n, v) => if schema.dn_syntax_of(n) {
            FilterV::Substring(n, replace_seq(v, src, dst))
        } else {
            f
        },
    }
}

/// The transform applied to each member of a filter list.
pub open spec fn transform_list(
    fs: Seq<FilterV>,
    schema: Schema,
    src: Seq<char>,
    dst: Seq<char>,
) -> Seq<FilterV>
    decreases fs,
{
    if fs.len() == 0 {
        Seq::empty()
    } else {
        seq![transform_fv(fs[0], schema, src, dst)] + transform_list(
            fs.drop_first(),
            schema,
            src,
            dst,
        )
    }
}

/// The list transform is the pointwise transform.
pub proof fn lemma_transform_list_pointwise(
    fs: Seq<FilterV>,
    schema: Schema,
    src: Seq<char>,
    dst: Seq<char>,
)
    ensures
        transform_list(fs, schema, src, dst).len() == fs.len(),
        forall|i: int|
            0 <= i < fs.len() ==> #[trigger] transform_list(fs, schema, src, dst)[i]
                == transform_fv(fs[i], schema, src, dst),
    decreases fs,
{
    if fs.len() > 0 {
        lemma_transform_list_pointwise(fs.drop_first(), schema, src, dst);
        assert forall|i: int| 0 <= i < fs.len() implies #[trigger] transform_list(
            fs,
            schema,
            src,
            dst,
        )[i] == transform_fv(fs[i], schema, src, dst) by {
            if i > 0 {
                assert(transform_list(fs, schema, src, dst)[i] == transform_list(
                    fs.drop_first(),
                    schema,
                    src,
                    dst,
                )[i - 1]);
                assert(fs.drop_first()[i - 1] == fs[i]);
            }
        }
    }
}

/// Rewrites every DN-valued term of the filter from the source base DN to
/// the destination base DN, as the schema directs.
pub fn transform_base_dns(f: &Filter, schema: &Schema, src: &String, dst: &String) -> (r: Filter)
    ensures
        r.fv() == transform_fv(f.fv(), *schema, src@, dst@),
    decreases f.node_count(),
{
    match f {
        Filter::And(fs) => {
            let mut out: Vec<Filter> = Vec::new();
            let mut i: usize = 0;
            while i < fs.len()
                invariant
                    0 <= i <= fs@.len(),
                    out@.len() == i,
                    forall|j: int|
                        0 <= j < i ==> (#[trigger] out@[j]).fv() == transform_fv(
                            fs@[j].fv(),
                            *schema,
                            src@,
                            dst@,
                        ),
                    f == Filter::And(*fs),
                decreases fs@.len() - i,
            {
                proof {
                    lemma_list_node_count_member(fs@, i as int);
                }
                let child = transform_base_dns(&fs[i], schema, src, dst);
                out.push(child);
                i = i + 1;
            }
            proof {
                lemma_list_fv_pointwise(out@);
                lemma_list_fv_pointwise(fs@);
                lemma_transform_list_pointwise(Filter::list_fv(fs@), *schema, src@, dst@);
                assert(Filter::list_fv(out@) =~= transform_list(
                    Filter::list_fv(fs@),
                    *schema,
                    src@,
                    dst@,
                ));
            }
            Filter::And(out)
        },
        Filter::Or(fs) => {
            let mut out: Vec<Filter> = Vec::new();
            let mut i: usize = 0;
            while i < fs.len()
                invariant
                    0 <= i <= fs@.len(),
                    out@.len() == i,
                    forall|j: int|
                        0 <= j < i ==> (#[trigger] out@[j]).fv() == transform_fv(
                            fs@[j].fv(),
                            *schema,
                            src@,
                            dst@,
                        ),
                    f == Filter::Or(*fs),
                decreases fs@.len() - i,
            {
                proof {
                    lemma_list_node_count_member(fs@, i as int);
                }
                let child = transform_base_dns(&fs[i], schema, src, dst);
                out.push(child);
                i = i + 1;
            }
            proof {
                lemma_list_fv_pointwise(out@);
                lemma_list_fv_pointwise(fs@);
                lemma_transform_list_pointwise(Filter::list_fv(fs@), *schema, src@, dst@);
                assert(Filter::list_fv(out@) =~= transform_list(
                    Filter::list_fv(fs@),
                    *schema,
                    src@,
                    dst@,
                ));
            }
            Filter::Or(out)
        },
        Filter::Not(g) => {
            let child = transform_base_dns(g, schema, src, dst);
            Filter::Not(Box::new(child))
        },
        Filter::Equal { attribute_name, attribute_value } => {
            if schema.is_dn_syntax(attribute_name) {
                Filter::Equal {
                    attribute_name: attribute_name.clone(),
                    attribute_value: replace_all(attribute_value, src, dst),
                }
            } else {
                Filter::Equal {
                    attribute_name: attribute_name.clone(),
                    attribute_value: attribute_value.clone(),
                }
            }
        },
        Filter::Approx { attribute_name, attribute_value } => {
            if schema.is_dn_syntax(attribute_name) {
                Filter::Approx {
                    attribute_name: attribute_name.clone(),
                    attribute_value: replace_all(attribute_value, src, dst),
                }
            } else {
                Filter::Approx {
                    attribute_name: attribute_name.clone(),
                    attribute_value: attribute_value.clone(),
                }
            }
        },
        Filter::Greater { attribute_name, attribute_value } => {
            if schema.is_dn_syntax(attribute_name) {
                Filter::Greater {
                    attribute_name: attribute_name.clone(),
                    attribute_value: replace_all(attribute_value, src, dst),
                }
            } else {
                Filter::Greater {
                    attribute_name: attribute_name.clone(),
                    attribute_value: attribute_value.clone(),
                }
            }
        },
        Filter::Less { attribute_name, attribute_value } => {
            if schema.is_dn_syntax(attribute_name) {
                Filter::Less {
                    attribute_name: attribute_name.clone(),
                    attribute_value: replace_all(attribute_value, src, dst),
                }
            } else {
                Filter::Less {
                    attribute_name: attribute_name.clone(),
                    attribute_value: attribute_value.clone(),
                }
            }
        },
        Filter::Present { attribute_name } => (Filter::Present {
            attribute_name: attribute_name.clone(),
        }),
        Filter::Substring { attribute_name, attribute_value } => {
            if schema.is_dn_syntax(attribute_name) {
                Filter::Substring {
                    attribute_name: attribute_name.clone(),
                    attribute_value: replace_all(attribute_value, src, dst),
                }
            } else {
                Filter::Substring {
                    attribute_name: attribute_name.clone(),
                    attribute_value: attribute_value.clone(),
                }
            }
        },
    }
}

/// The text of a filter: terms in parentheses, the boolean connectives
/// written prefix, a presence term written with a trailing wildcard.
pub open spec fn render_fv(f: FilterV) -> Seq<char>
    decreases f,
{
    match f {
        FilterV::And(fs) => seq!['(', '&'] + render_list(fs) + seq![')'],
        FilterV::Or(fs) => seq!['(', '|'] + render_list(fs) + seq![')'],
        FilterV::Not(g) => seq!['(', '!'] + render_fv(*g) + seq![')'],
        FilterV::Equal(n, v) => seq!['('] + n + seq!['='] + v + seq![')'],
        FilterV::Approx(n, v) => seq!['('] + n + seq!['=', '~'] + v + seq![')'],
        FilterV::Greater(n, v) => seq!['('] + n + seq!['>', '='] + v + seq![')'],
        FilterV::Less(n, v) => seq!['('] + n + seq!['<', '='] + v + seq![')'],
        FilterV::Present(n) => seq!['('] + n + seq!['=', '*', ')'],
        FilterV::Substring(n, v) => seq!['('] + n + seq!['='] + v + seq![')'],
    }
}

/// The texts of a list of filters, in order, with nothing between them.
pub open spec fn render_list(fs: Seq<FilterV>) -> Seq<char>
    decreases fs,
{
    if fs.len() == 0 {
        Seq::empty()
    } else {
        render_list(fs.drop_last()) + render_fv(fs.last())
    }
}

/// Renders the filter as search-filter text.
pub fn render_filter(f: &Filter) -> (r: String)
    ensures
        r@ == render_fv(f.fv()),
    decreases f.node_count(),
{
    proof {
        reveal_strlit("(");
        reveal_strlit(")");
        reveal_strlit("(&");
        reveal_strlit("(|");
        reveal_strlit("(!");
        reveal_strlit("=");
        reveal_strlit("=~");
        reveal_strlit(">=");
        reveal_strlit("<=");
        reveal_strlit("=*)");
    }
    match f {
        Filter::And(fs) => {
            let mut r = String::from_str("(&");
            let mut i: usize = 0;
            proof {
                lemma_list_fv_pointwise(fs@);
                assert(render_list(Filter::list_fv(fs@).take(0)) =~= Seq::<char>::empty());
                assert(r@ =~= seq!['(', '&'] + render_list(Filter::list_fv(fs@).take(0)));
            }
            while i < fs.len()
                invariant
                    0 <= i <= fs@.len(),
                    Filter::list_fv(fs@).len() == fs@.len(),
                    forall|j: int|
                        0 <= j < fs@.len() ==> #[trigger] Filter::list_fv(fs@)[j] == fs@[j].fv(),
                    r@ == seq!['(', '&'] + render_list(Filter::list_fv(fs@).take(i as int)),
                    f == Filter::And(*fs),
                decreases fs@.len() - i,
            {
                proof {
                    lemma_list_node_count_member(fs@, i as int);
                }
                let child = render_filter(&fs[i]);
                r.append(child.as_str());
                proof {
                    let lv = Filter::list_fv(fs@);
                    assert(lv.take(i + 1).drop_last() =~= lv.take(i as int));
                    assert(lv.take(i + 1).last() == lv[i as int]);
                    assert(r@ =~= seq!['(', '&'] + render_list(lv.take(i + 1)));
                }
                i = i + 1;
            }
            r.append(")");
            proof {
                let lv = Filter::list_fv(fs@);
                assert(lv.take(fs@.len() as int) =~= lv);
                assert(")"@ =~= seq![')']);
                assert(r@ =~= render_fv(f.fv()));
            }
            r
        },
        Filter::Or(fs) => {
            let mut r = String::from_str("(|");
            let mut i: usize = 0;
            proof {
                lemma_list_fv_pointwise(fs@);
                assert(render_list(Filter::list_fv(fs@).take(0)) =~= Seq::<char>::empty());
                assert(r@ =~= seq!['(', '|'] + render_list(Filter::list_fv(fs@).take(0)));
            }
            while i < fs.len()
                invariant
                    0 <= i <= fs@.len(),
                    Filter::list_fv(fs@).len() == fs@.len(),
                    forall|j: int|
                        0 <= j < fs@.len() ==> #[trigger] Filter::list_fv(fs@)[j] == fs@[j].fv(),
                    r@ == seq!['(', '|'] + render_list(Filter::list_fv(fs@).take(i as int)),
                    f == Filter::Or(*fs),
                decreases fs@.len() - i,
            {
                proof {
                    lemma_list_node_count_member(fs@, i as int);
                }
                let child = render_filter(&fs[i]);
                r.append(child.as_str());
                proof {
                    let lv = Filter::list_fv(fs@);
                    assert(lv.take(i + 1).drop_last() =~= lv.take(i as int));
                    assert(lv.take(i + 1).last() == lv[i as int]);
                    assert(r@ =~= seq!['(', '|'] + render_list(lv.take(i + 1)));
                }
                i = i + 1;
            }
            r.append(")");
            proof {
                let lv = Filter::list_fv(fs@);
                assert(lv.take(fs@.len() as int) =~= lv);
                assert(")"@ =~= seq![')']);
                assert(r@ =~= render_fv(f.fv()));
            }
            r
        },
        Filter::Not(g) => {
            let mut r = String::from_str("(!");
            let child = render_filter(g);
            r.append(child.as_str());
            r.append(")");
            proof {
                assert(r@ =~= render_fv(f.fv()));
            }
            r
        },
        Filter::Equal { attribute_name, attribute_value } => {
            let mut r = String::from_str("(");
            r.append(attribute_name.as_str());
            r.append("=");
            r.append(attribute_value.as_str());
            r.append(")");
            proof {
                assert(r@ =~= render_fv(f.fv()));
            }
            r
        },
        Filter::Approx { attribute_name, attribute_value } => {
            let mut r = String::from_str("(");
            r.append(attribute_name.as_str());
            r.append("=~");
            r.append(attribute_value.as_str());
            r.append(")");
            proof {
                assert(r@ =~= render_fv(f.fv()));
            }
            r
        },
        Filter::Greater { attribute_name, attribute_value } => {
            let mut r = String::from_str("(");
            r.append(attribute_name.as_str());
            r.append(">=");
            r.append(attribute_value.as_str());
            r.append(")");
            proof {
                assert(r@ =~= render_fv(f.fv()));
            }
            r
        },
        Filter::Less { attribute_name, attribute_value } => {
            let mut r = String::from_str("(");
            r.append(attribute_name.as_str());
            r.append("<=");
            r.append(attribute_value.as_str());
            r.append(")");
            proof {
                assert(r@ =~= render_fv(f.fv()));
            }
            r
        },
        Filter::Present { attribute_name } => {
            let mut r = String::from_str("(");
            r.append(attribute_name.as_str());
            r.append("=*)");
            proof {
                assert(r@ =~= render_fv(f.fv()));
            }
            r
        },
        Filter::Substring { attribute_name, attribute_value } => {
            let mut r = String::from_str("(");
            r.append(attribute_name.as_str());
            r.append("=");
            r.append(attribute_value.as_str());
            r.append(")");
            proof {
                assert(r@ =~= render_fv(f.fv()));
            }
            r
        },
    }
}

} // verus!
