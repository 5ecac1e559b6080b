//! The operations a reconciliation plan is made of, and the per-attribute
//! modifications a Modify operation carries.
use vstd::prelude::*;
use crate::entry::{Entry, EntryV};
use crate::values::{str_views, bin_views};

verus! {

/// A modification of one textual attribute.
pub enum TextMod {
    /// Replace all values of the attribute.
    Replace { attr: String, values: Vec<String> },
    /// Add values to the attribute.
    Add { attr: String, values: Vec<String> },
    /// Delete the given values, or every value when none are given.
    Delete { attr: String, values: Vec<String> },
    /// Increment the attribute by the given amount.
    Increment { attr: String, value: String },
}

/// The mathematical shape of a textual modification.
pub enum TextModV {
    Replace(Seq<char>, Seq<Seq<char>>),
    Add(Seq<char>, Seq<Seq<char>>),
    Delete(Seq<char>, Seq<Seq<char>>),
    Increment(Seq<char>, Seq<char>),
}

impl View for TextMod {
    type V = TextModV;

    open spec fn view(&self) -> TextModV {
        match self {
            TextMod::Replace { attr, values } => TextModV::Replace(attr@, str_views(values@)),
            TextMod::Add { attr, values } => TextModV::Add(attr@, str_views(values@)),
            TextMod::Delete { attr, values } => TextModV::Delete(attr@, str_views(values@)),
            TextMod::Increment { attr, value } => TextModV::Increment(attr@, value@),
        }
    }
}

/// A modification of one binary attribute.
pub enum BinMod {
    /// Replace all values of the attribute.
    Replace { attr: String, values: Vec<Vec<u8>> },
    /// Add values to the attribute.
    Add { attr: String, values: Vec<Vec<u8>> },
    /// Delete the given values, or every value when none are given.
    Delete { attr: String, values: Vec<Vec<u8>> },
    /// Increment the attribute by the given amount.
    Increment { attr: String, value: Vec<u8> },
}

/// The mathematical shape of a binary modification.
pub enum BinModV {
    Replace(Seq<char>, Seq<Seq<u8>>),
    Add(Seq<char>, Seq<Seq<u8>>),
    Delete(Seq<char>, Seq<Seq<u8>>),
    Increment(Seq<char>, Seq<u8>),
}

impl View for BinMod {
    type V = BinModV;

    open spec fn view(&self) -> BinModV {
        match self {
            BinMod::Replace { attr, values } => BinModV::Replace(attr@, bin_views(values@)),
            BinMod::Add { attr, values } => BinModV::Add(attr@, bin_views(values@)),
            BinMod::Delete { attr, values } => BinModV::Delete(attr@, bin_views(values@)),
            BinMod::Increment { attr, value } => BinModV::Increment(attr@, value@),
        }
    }
}

/// One step of a reconciliation plan, relative to the destination base DN.
pub enum Operation {
    /// Create the entry under the destination base.
    Add(Entry),
    /// Recursively remove the subtree rooted at the relative DN.
    Delete { rdn: String },
    /// Apply the combined textual and binary modifications to the entry.
    Modify { rdn: String, mods: Vec<TextMod>, bin_mods: Vec<BinMod> },
}

/// The mathematical shape of a plan step.
pub enum OperationV {
    Add(EntryV),
    Delete(Seq<char>),
    Modify(Seq<char>, Seq<TextModV>, Seq<BinModV>),
}

/// The views of a sequence of textual modifications.
pub open spec fn text_mod_views(ms: Seq<TextMod>) -> Seq<TextModV> {
    ms.map_values(|m: TextMod| m@)
}

/// The views of a sequence of binary modifications.
pub open spec fn bin_mod_views(ms: Seq<BinMod>) -> Seq<BinModV> {
    ms.map_values(|m: BinMod| m@)
}

impl View for Operation {
    type V = OperationV;

    open spec fn view(&self) -> OperationV {
        match self {
            Operation::Add(e) => OperationV::Add(e@),
            Operation::Delete { rdn } => OperationV::Delete(rdn@),
            Operation::Modify { rdn, mods, bin_mods } => OperationV::Modify(
                rdn@,
                text_mod_views(mods@),
                bin_mod_views(bin_mods@),
            ),
        }
    }
}

/// The views of a sequence of operations.
pub open spec fn op_views(ops: Seq<Operation>) -> Seq<OperationV> {
    ops.map_values(|o: Operation| o@)
}

/// Taking views commutes with appending one textual modification.
pub proof fn lemma_text_mod_views_push(s: Seq<TextMod>, m: TextMod)
    ensures
        text_mod_views(s.push(m)) == text_mod_views(s).push(m@),
{
    assert forall|j: int| 0 <= j < s.len() + 1 implies text_mod_views(s.push(m))[j]
        == text_mod_views(s).push(m@)[j] by {
        if j < s.len() {
            assert(s.push(m)[j] == s[j]);
        } else {
            assert(s.push(m)[j] == m);
        }
    }
    assert(text_mod_views(s.push(m)) =~= text_mod_views(s).push(m@));
}

/// Taking views commutes with appending one binary modification.
pub proof fn lemma_bin_mod_views_push(s: Seq<BinMod>, m: BinMod)
    ensures
        bin_mod_views(s.push(m)) == bin_mod_views(s).push(m@),
{
    assert forall|j: int| 0 <= j < s.len() + 1 implies bin_mod_views(s.push(m))[j]
        == bin_mod_views(s).push(m@)[j] by {
        if j < s.len() {
            assert(s.push(m)[j] == s[j]);
        } else {
            assert(s.push(m)[j] == m);
        }
    }
    assert(bin_mod_views(s.push(m)) =~= bin_mod_views(s).push(m@));
}

/// Taking views commutes with appending one operation.
pub proof fn lemma_op_views_push(s: Seq<Operation>, o: Operation)
    ensures
        op_views(s.push(o)) == op_views(s).push(o@),
{
    assert forall|j: int| 0 <= j < s.len() + 1 implies op_views(s.push(o))[j] == op_views(s).push(
        o@,
    )[j] by {
        if j < s.len() {
            assert(s.push(o)[j] == s[j]);
        } else {
            assert(s.push(o)[j] == o);
        }
    }
    assert(op_views(s.push(o)) =~= op_views(s).push(o@));
}

impl OperationV {
    /// The relative DN the step acts on.
    pub open spec fn rdn(self) -> Seq<char> {
        match self {
            OperationV::Add(e) => e.rdn,
            OperationV::Delete(rdn) => rdn,
            OperationV::Modify(rdn, _, _) => rdn,
        }
    }

    /// The attribute name a textual modification acts on.
    pub open spec fn text_mod_attr(m: TextModV) -> Seq<char> {
        match m {
            TextModV::Replace(a, _) => a,
            TextModV::Add(a, _) => a,
            TextModV::Delete(a, _) => a,
            TextModV::Increment(a, _) => a,
        }
    }

    /// The attribute name a binary modification acts on.
    pub open spec fn bin_mod_attr(m: BinModV) -> Seq<char> {
        match m {
            BinModV::Replace(a, _) => a,
            BinModV::Add(a, _) => a,
            BinModV::Delete(a, _) => a,
            BinModV::Increment(a, _) => a,
        }
    }
}

} // verus!
