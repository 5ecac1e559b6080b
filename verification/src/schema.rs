//! The per-attribute schema facts the reconciliation engine consults: whether
//! an attribute has the Distinguished-Name syntax, and whether its equality
//! matching rule is case-insensitive.
use vstd::prelude::*;

verus! {

/// What the engine needs to know of one attribute type.
pub struct AttributeSchema {
    /// The attribute name, spelled as it appears in entries.
    pub name: String,
    /// Whether the attribute's syntax is the DN syntax
    /// (OID 1.3.6.1.4.1.1466.115.121.1.12), which triggers base-DN rewriting.
    pub dn_syntax: bool,
    /// Whether the attribute's equality matching rule ignores case.
    pub case_insensitive: bool,
}

/// An attribute-schema table, consulted by name; the first entry with a
/// given name wins. An attribute that is absent has neither DN syntax nor a
/// case-insensitive equality rule.
pub struct Schema {
    pub attrs: Vec<AttributeSchema>,
}

/// First entry of `attrs` named `name`, if any.
pub open spec fn lookup_schema(attrs: Seq<AttributeSchema>, name: Seq<char>) -> Option<
    AttributeSchema,
>
    decreases attrs.len(),
{
    if attrs.len() == 0 {
        None
    } else if attrs[0].name@ == name {
        Some(attrs[0])
    } else {
        lookup_schema(attrs.drop_first(), name)
    }
}

proof fn lemma_lookup_schema_skip(attrs: Seq<AttributeSchema>, name: Seq<char>, i: int)
    requires
        0 <= i <= attrs.len(),
        forall|j: int| 0 <= j < i ==> attrs[j].name@ != name,
    ensures
        lookup_schema(attrs, name) == lookup_schema(attrs.skip(i), name),
    decreases i,
{
    if i > 0 {
        assert(attrs.drop_first().skip(i - 1) =~= attrs.skip(i));
        assert(forall|j: int| 0 <= j < i - 1 ==> attrs.drop_first()[j] == attrs[j + 1]);
        lemma_lookup_schema_skip(attrs.drop_first(), name, i - 1);
    } else {
        assert(attrs.skip(0) =~= attrs);
    }
}

impl Schema {
    /// Whether the named attribute's syntax is the DN syntax.
    pub open spec fn dn_syntax_of(self, name: Seq<char>) -> bool {
        match lookup_schema(self.attrs@, name) {
            Some(a) => a.dn_syntax,
            None => false,
        }
    }

    /// Whether the named attribute's equality matching rule ignores case.
    pub open spec fn case_insensitive_of(self, name: Seq<char>) -> bool {
        match lookup_schema(self.attrs@, name) {
            Some(a) => a.case_insensitive,
            None => false,
        }
    }

    /// Looks the named attribute up and reports whether its syntax is the
    /// DN syntax.
    pub fn is_dn_syntax(&self, name: &String) -> (r: bool)
        ensures
            r == self.dn_syntax_of(name@),
    {
        let mut i: usize = 0;
        while i < self.attrs.len()
            invariant
                0 <= i <= self.attrs@.len(),
                forall|j: int| 0 <= j < i ==> self.attrs@[j].name@ != name@,
            decreases self.attrs@.len() - i,
        {
            if self.attrs[i].name.eq(name) {
                proof {
                    lemma_lookup_schema_skip(self.attrs@, name@, i as int);
                    assert(self.attrs@.skip(i as int)[0] == self.attrs@[i as int]);
                }
                return self.attrs[i].dn_syntax;
            }
            i = i + 1;
        }
        proof {
            lemma_lookup_schema_skip(self.attrs@, name@, i as int);
            assert(self.attrs@.skip(i as int).len() == 0);
        }
        false
    }

    /// Looks the named attribute up and reports whether its equality rule is
    /// case-insensitive.
    pub fn is_case_insensitive(&self, name: &String) -> (r: bool)
        ensures
            r == self.case_insensitive_of(name@),
    {
        let mut i: usize = 0;
        while i < self.attrs.len()
            invariant
                0 <= i <= self.attrs@.len(),
                forall|j: int| 0 <= j < i ==> self.attrs@[j].name@ != name@,
            decreases self.attrs@.len() - i,
        {
            if self.attrs[i].name.eq(name) {
                proof {
                    lemma_lookup_schema_skip(self.attrs@, name@, i as int);
                    assert(self.attrs@.skip(i as int)[0] == self.attrs@[i as int]);
                }
                return self.attrs[i].case_insensitive;
            }
            i = i + 1;
        }
        proof {
            lemma_lookup_schema_skip(self.attrs@, name@, i as int);
            assert(self.attrs@.skip(i as int).len() == 0);
        }
        false
    }
}

} // verus!
