//! Directory entries keyed by their relative DN, and the in-memory store
//! that one reconciliation run populates on each side.
use vstd::prelude::*;
use crate::values::{str_views, bin_views};
use crate::text::matches_at;

verus! {

/// One textual attribute: a name and its ordered values.
pub struct Attr {
    pub name: String,
    pub values: Vec<String>,
}

/// One binary attribute: a name and its ordered byte-string values.
pub struct BinAttr {
    pub name: String,
    pub values: Vec<Vec<u8>>,
}

/// A directory entry, keyed by its DN relative to the server's base DN.
pub struct Entry {
    /// The entry's DN with the base-DN suffix removed.
    pub rdn: String,
    /// Textual attributes.
    pub attrs: Vec<Attr>,
    /// Binary attributes.
    pub bin_attrs: Vec<BinAttr>,
}

/// The mathematical shape of an entry: the relative DN and the two
/// name-to-values association lists.
pub struct EntryV {
    pub rdn: Seq<char>,
    pub attrs: Seq<(Seq<char>, Seq<Seq<char>>)>,
    pub bin_attrs: Seq<(Seq<char>, Seq<Seq<u8>>)>,
}

/// The name-to-values view of a textual attribute list.
pub open spec fn text_attrs_view(s: Seq<Attr>) -> Seq<(Seq<char>, Seq<Seq<char>>)> {
    s.map_values(|a: Attr| (a.name@, str_views(a.values@)))
}

/// The name-to-values view of a binary attribute list.
pub open spec fn bin_attrs_view(s: Seq<BinAttr>) -> Seq<(Seq<char>, Seq<Seq<u8>>)> {
    s.map_values(|a: BinAttr| (a.name@, bin_views(a.values@)))
}

impl View for Entry {
    type V = EntryV;

    open spec fn view(&self) -> EntryV {
        EntryV {
            rdn: self.rdn@,
            attrs: text_attrs_view(self.attrs@),
            bin_attrs: bin_attrs_view(self.bin_attrs@),
        }
    }
}

/// First association for `name` in a textual attribute list, if any.
pub open spec fn lookup_text(av: Seq<(Seq<char>, Seq<Seq<char>>)>, name: Seq<char>) -> Option<
    Seq<Seq<char>>,
>
    decreases av.len(),
{
    if av.len() == 0 {
        None
    } else if av[0].0 == name {
        Some(av[0].1)
    } else {
        lookup_text(av.drop_first(), name)
    }
}

/// First association for `name` in a binary attribute list, if any.
pub open spec fn lookup_bin(av: Seq<(Seq<char>, Seq<Seq<u8>>)>, name: Seq<char>) -> Option<
    Seq<Seq<u8>>,
>
    decreases av.len(),
{
    if av.len() == 0 {
        None
    } else if av[0].0 == name {
        Some(av[0].1)
    } else {
        lookup_bin(av.drop_first(), name)
    }
}

pub proof fn lemma_lookup_text_skip(av: Seq<(Seq<char>, Seq<Seq<char>>)>, name: Seq<char>, i: int)
    requires
        0 <= i <= av.len(),
        forall|j: int| 0 <= j < i ==> av[j].0 != name,
    ensures
        lookup_text(av, name) == lookup_text(av.skip(i), name),
    decreases i,
{
    if i > 0 {
        assert(av.drop_first().skip(i - 1) =~= av.skip(i));
        assert(forall|j: int| 0 <= j < i - 1 ==> av.drop_first()[j] == av[j + 1]);
        lemma_lookup_text_skip(av.drop_first(), name, i - 1);
    } else {
        assert(av.skip(0) =~= av);
    }
}

pub proof fn lemma_lookup_bin_skip(av: Seq<(Seq<char>, Seq<Seq<u8>>)>, name: Seq<char>, i: int)
    requires
        0 <= i <= av.len(),
        forall|j: int| 0 <= j < i ==> av[j].0 != name,
    ensures
        lookup_bin(av, name) == lookup_bin(av.skip(i), name),
    decreases i,
{
    if i > 0 {
        assert(av.drop_first().skip(i - 1) =~= av.skip(i));
        assert(forall|j: int| 0 <= j < i - 1 ==> av.drop_first()[j] == av[j + 1]);
        lemma_lookup_bin_skip(av.drop_first(), name, i - 1);
    } else {
        assert(av.skip(0) =~= av);
    }
}

/// Attribute names are unique within each list and never shared between
/// the textual and the binary list.
pub open spec fn entry_wf(ev: EntryV) -> bool {
    &&& forall|i: int, j: int| 0 <= i < j < ev.attrs.len() ==> ev.attrs[i].0 != ev.attrs[j].0
    &&& forall|i: int, j: int|
        0 <= i < j < ev.bin_attrs.len() ==> ev.bin_attrs[i].0 != ev.bin_attrs[j].0
    &&& forall|i: int, j: int|
        0 <= i < ev.attrs.len() && 0 <= j < ev.bin_attrs.len() ==> ev.attrs[i].0
            != ev.bin_attrs[j].0
}

/// Relative DNs are unique and every entry is well formed.
pub open spec fn store_wf(es: Seq<EntryV>) -> bool {
    &&& forall|i: int, j: int| 0 <= i < j < es.len() ==> es[i].rdn != es[j].rdn
    &&& forall|i: int| 0 <= i < es.len() ==> entry_wf(#[trigger] es[i])
}

impl Entry {
    /// Attribute names are unique within each list and never shared between
    /// the textual and the binary list.
    pub open spec fn wf(self) -> bool {
        entry_wf(self@)
    }

    /// The values of the named textual attribute, if present.
    pub fn get_attr(&self, name: &String) -> (r: Option<&Vec<String>>)
        ensures
            match r {
                Some(v) => lookup_text(self@.attrs, name@) == Some(str_views(v@)),
                None => lookup_text(self@.attrs, name@) is None,
            },
    {
        let mut i: usize = 0;
        while i < self.attrs.len()
            invariant
                0 <= i <= self.attrs@.len(),
                forall|j: int| 0 <= j < i ==> self@.attrs[j].0 != name@,
            decreases self.attrs@.len() - i,
        {
            if self.attrs[i].name.eq(name) {
                proof {
                    lemma_lookup_text_skip(self@.attrs, name@, i as int);
                    assert(self@.attrs.skip(i as int)[0] == self@.attrs[i as int]);
                }
                return Some(&self.attrs[i].values);
            }
            i = i + 1;
        }
        proof {
            lemma_lookup_text_skip(self@.attrs, name@, i as int);
            assert(self@.attrs.skip(i as int).len() == 0);
        }
        None
    }

    /// The values of the named binary attribute, if present.
    pub fn get_bin_attr(&self, name: &String) -> (r: Option<&Vec<Vec<u8>>>)
        ensures
            match r {
                Some(v) => lookup_bin(self@.bin_attrs, name@) == Some(bin_views(v@)),
                None => lookup_bin(self@.bin_attrs, name@) is None,
            },
    {
        let mut i: usize = 0;
        while i < self.bin_attrs.len()
            invariant
                0 <= i <= self.bin_attrs@.len(),
                forall|j: int| 0 <= j < i ==> self@.bin_attrs[j].0 != name@,
            decreases self.bin_attrs@.len() - i,
        {
            if self.bin_attrs[i].name.eq(name) {
                proof {
                    lemma_lookup_bin_skip(self@.bin_attrs, name@, i as int);
                    assert(self@.bin_attrs.skip(i as int)[0] == self@.bin_attrs[i as int]);
                }
                return Some(&self.bin_attrs[i].values);
            }
            i = i + 1;
        }
        proof {
            lemma_lookup_bin_skip(self@.bin_attrs, name@, i as int);
            assert(self@.bin_attrs.skip(i as int).len() == 0);
        }
        None
    }
}

/// First entry with the given relative DN, if any.
pub open spec fn lookup_entry(es: Seq<EntryV>, rdn: Seq<char>) -> Option<EntryV>
    decreases es.len(),
{
    if es.len() == 0 {
        None
    } else if es[0].rdn == rdn {
        Some(es[0])
    } else {
        lookup_entry(es.drop_first(), rdn)
    }
}

/// Index of the first entry with the given relative DN, or a negative value.
pub open spec fn index_of_rdn(es: Seq<EntryV>, rdn: Seq<char>) -> int
    decreases es.len(),
{
    if es.len() == 0 {
        -1int
    } else if es[0].rdn == rdn {
        0int
    } else {
        let r = index_of_rdn(es.drop_first(), rdn);
        if r < 0 {
            -1int
        } else {
            r + 1
        }
    }
}

pub proof fn lemma_index_of_rdn(es: Seq<EntryV>, rdn: Seq<char>)
    ensures
        -1 <= index_of_rdn(es, rdn) < es.len(),
        index_of_rdn(es, rdn) >= 0 ==> es[index_of_rdn(es, rdn)].rdn == rdn && lookup_entry(
            es,
            rdn,
        ) == Some(es[index_of_rdn(es, rdn)]),
        index_of_rdn(es, rdn) < 0 ==> lookup_entry(es, rdn) is None,
        forall|j: int|
            0 <= j < index_of_rdn(es, rdn) ==> es[j].rdn != rdn,
    decreases es.len(),
{
    if es.len() > 0 && es[0].rdn != rdn {
        lemma_index_of_rdn(es.drop_first(), rdn);
        let r = index_of_rdn(es.drop_first(), rdn);
        if r >= 0 {
            assert forall|j: int| 0 <= j < index_of_rdn(es, rdn) implies es[j].rdn != rdn by {
                if j > 0 {
                    assert(es.drop_first()[j - 1] == es[j]);
                }
            }
        }
    }
}

/// The entries of one side of a reconciliation run, keyed by relative DN.
pub struct EntryStore {
    pub entries: Vec<Entry>,
}

impl View for EntryStore {
    type V = Seq<EntryV>;

    open spec fn view(&self) -> Seq<EntryV> {
        self.entries@.map_values(|e: Entry| e@)
    }
}

impl EntryStore {
    /// Relative DNs are unique and every entry is well formed.
    pub open spec fn wf(self) -> bool {
        store_wf(self@)
    }

    /// Creates an empty store.
    pub fn new() -> (r: EntryStore)
        ensures
            r@ == Seq::<EntryV>::empty(),
            r.wf(),
    {
        let r = EntryStore { entries: Vec::new() };
        proof {
            assert(r@ =~= Seq::<EntryV>::empty());
        }
        r
    }

    /// The number of entries.
    pub fn len(&self) -> (n: usize)
        ensures
            n == self@.len(),
    {
        self.entries.len()
    }

    /// The entry stored under the given relative DN, if any.
    pub fn get(&self, rdn: &String) -> (r: Option<&Entry>)
        ensures
            match r {
                Some(e) => lookup_entry(self@, rdn@) == Some(e@),
                None => lookup_entry(self@, rdn@) is None,
            },
    {
        let mut i: usize = 0;
        while i < self.entries.len()
            invariant
                0 <= i <= self.entries@.len(),
                forall|j: int| 0 <= j < i ==> self@[j].rdn != rdn@,
            decreases self.entries@.len() - i,
        {
            if self.entries[i].rdn.eq(rdn) {
                proof {
                    lemma_lookup_entry_skip(self@, rdn@, i as int);
                    assert(self@.skip(i as int)[0] == self@[i as int]);
                }
                return Some(&self.entries[i]);
            }
            i = i + 1;
        }
        proof {
            lemma_lookup_entry_skip(self@, rdn@, i as int);
            assert(self@.skip(i as int).len() == 0);
        }
        None
    }

    /// Stores `e` under its relative DN, replacing any entry already stored
    /// under the same key and keeping its position; a new key is appended.
    /// A well-formed store stays well formed.
    pub fn insert(&mut self, e: Entry)
        ensures
            ({
                let k = index_of_rdn(old(self)@, e@.rdn);
                if k < 0 {
                    final(self)@ == old(self)@.push(e@)
                } else {
                    final(self)@ == old(self)@.update(k, e@)
                }
            }),
            old(self).wf() && e.wf() ==> final(self).wf(),
    {
        proof {
            if old(self).wf() && e.wf() {
                lemma_insert_preserves_wf(old(self)@, e@);
            }
            lemma_index_of_rdn(old(self)@, e@.rdn);
        }
        let mut i: usize = 0;
        while i < self.entries.len()
            invariant
                0 <= i <= self.entries@.len(),
                *self == *old(self),
                forall|j: int| 0 <= j < i ==> self@[j].rdn != e@.rdn,
            decreases self.entries@.len() - i,
        {
            if self.entries[i].rdn.eq(&e.rdn) {
                proof {
                    lemma_index_of_rdn_is(self@, e@.rdn, i as int);
                    if old(self).wf() && e.wf() {
                        lemma_insert_preserves_wf(old(self)@, e@);
                    }
                }
                self.entries.set(i, e);
                proof {
                    assert(final(self)@ =~= old(self)@.update(i as int, e@));
                }
                return ;
            }
            i = i + 1;
        }
        proof {
            lemma_index_of_rdn_none(self@, e@.rdn);
        }
        self.entries.push(e);
        proof {
            assert(final(self)@ =~= old(self)@.push(e@));
        }
    }
}

pub proof fn lemma_lookup_entry_skip(es: Seq<EntryV>, rdn: Seq<char>, i: int)
    requires
        0 <= i <= es.len(),
        forall|j: int| 0 <= j < i ==> es[j].rdn != rdn,
    ensures
        lookup_entry(es, rdn) == lookup_entry(es.skip(i), rdn),
    decreases i,
{
    if i > 0 {
        assert(es.drop_first().skip(i - 1) =~= es.skip(i));
        assert(forall|j: int| 0 <= j < i - 1 ==> es.drop_first()[j] == es[j + 1]);
        lemma_lookup_entry_skip(es.drop_first(), rdn, i - 1);
    } else {
        assert(es.skip(0) =~= es);
    }
}

/// The first index with the given key, established from pointwise facts.
pub proof fn lemma_index_of_rdn_is(es: Seq<EntryV>, rdn: Seq<char>, k: int)
    requires
        0 <= k < es.len(),
        es[k].rdn == rdn,
        forall|j: int| 0 <= j < k ==> es[j].rdn != rdn,
    ensures
        index_of_rdn(es, rdn) == k,
    decreases k,
{
    if k > 0 {
        assert(forall|j: int| 0 <= j < k - 1 ==> es.drop_first()[j] == es[j + 1]);
        lemma_index_of_rdn_is(es.drop_first(), rdn, k - 1);
    }
}

pub proof fn lemma_index_of_rdn_none(es: Seq<EntryV>, rdn: Seq<char>)
    requires
        forall|j: int| 0 <= j < es.len() ==> es[j].rdn != rdn,
    ensures
        index_of_rdn(es, rdn) == -1,
    decreases es.len(),
{
    if es.len() > 0 {
        assert(forall|j: int| 0 <= j < es.len() - 1 ==> es.drop_first()[j] == es[j + 1]);
        lemma_index_of_rdn_none(es.drop_first(), rdn);
    }
}

/// A negative index means no entry carries the key.
pub proof fn lemma_index_of_rdn_neg(es: Seq<EntryV>, rdn: Seq<char>)
    requires
        index_of_rdn(es, rdn) < 0,
    ensures
        forall|j: int| 0 <= j < es.len() ==> (#[trigger] es[j]).rdn != rdn,
    decreases es.len(),
{
    if es.len() > 0 {
        lemma_index_of_rdn_neg(es.drop_first(), rdn);
        assert forall|j: int| 0 <= j < es.len() implies (#[trigger] es[j]).rdn != rdn by {
            if j > 0 {
                assert(es.drop_first()[j - 1] == es[j]);
            }
        }
    }
}

/// Storing a well-formed entry keeps a well-formed store well formed,
/// whether the key is new or replaces an entry in place.
pub proof fn lemma_insert_preserves_wf(es: Seq<EntryV>, ev: EntryV)
    requires
        store_wf(es),
        entry_wf(ev),
    ensures
        ({
            let k = index_of_rdn(es, ev.rdn);
            if k < 0 {
                store_wf(es.push(ev))
            } else {
                store_wf(es.update(k, ev))
            }
        }),
{
    let k = index_of_rdn(es, ev.rdn);
    lemma_index_of_rdn(es, ev.rdn);
    if k < 0 {
        lemma_index_of_rdn_neg(es, ev.rdn);
        let ns = es.push(ev);
        assert forall|i: int, j: int| 0 <= i < j < ns.len() implies ns[i].rdn != ns[j].rdn by {
            if j < es.len() {
                assert(ns[i] == es[i] && ns[j] == es[j]);
            } else {
                assert(ns[i] == es[i] && ns[j] == ev);
            }
        }
        assert forall|i: int| 0 <= i < ns.len() implies entry_wf(#[trigger] ns[i]) by {
            if i < es.len() {
                assert(ns[i] == es[i]);
            } else {
                assert(ns[i] == ev);
            }
        }
    } else {
        let ns = es.update(k, ev);
        assert(es[k].rdn == ev.rdn);
        assert forall|i: int, j: int| 0 <= i < j < ns.len() implies ns[i].rdn != ns[j].rdn by {
            assert(ns[i] == if i == k {
                ev
            } else {
                es[i]
            });
            assert(ns[j] == if j == k {
                ev
            } else {
                es[j]
            });
        }
        assert forall|i: int| 0 <= i < ns.len() implies entry_wf(#[trigger] ns[i]) by {
            if i != k {
                assert(ns[i] == es[i]);
            }
        }
    }
}

/// The relative DN that remains when the suffix `"," + base` is removed
/// from `dn`, if `dn` ends that way.
pub open spec fn strip_suffix_dn(dn: Seq<char>, base: Seq<char>) -> Option<Seq<char>> {
    if dn.len() > base.len() && dn.skip(dn.len() - base.len() - 1) == seq![','] + base {
        Some(dn.take(dn.len() - base.len() - 1))
    } else {
        None
    }
}

/// Removes the suffix `"," + base` from `dn`. The remainder concatenated
/// with `"," + base` is exactly `dn` again; a DN that does not end in the
/// suffix yields nothing.
pub fn strip_base_dn(dn: &String, base: &String) -> (r: Option<String>)
    ensures
        match r {
            Some(s) => strip_suffix_dn(dn@, base@) == Some(s@) && dn@ == s@ + seq![','] + base@,
            None => strip_suffix_dn(dn@, base@) is None,
        },
{
    let dn_len = dn.as_str().unicode_len();
    let base_len = base.as_str().unicode_len();
    if dn_len <= base_len {
        return None;
    }
    let cut = dn_len - base_len - 1;
    let comma = dn.as_str().get_char(cut);
    let tail_matches = crate::text::has_match_at(dn, base, cut + 1);
    if comma == ',' && tail_matches {
        let kept = dn.as_str().substring_char(0, cut).to_owned();
        proof {
            assert(dn@.skip(cut as int) =~= seq![','] + base@) by {
                assert(dn@.subrange(cut + 1, cut + 1 + base@.len()) == base@);
                assert(forall|j: int|
                    #![trigger dn@.subrange(cut + 1, cut + 1 + base@.len())[j]]
                    0 <= j < base@.len() ==> dn@.skip(cut as int)[j + 1] == dn@.subrange(
                        cut + 1,
                        cut + 1 + base@.len(),
                    )[j]);
            }
            assert(kept@ == dn@.take(cut as int));
            assert(dn@ =~= dn@.take(cut as int) + seq![','] + base@);
        }
        Some(kept)
    } else {
        proof {
            if dn@.skip(cut as int) == seq![','] + base@ {
                assert(dn@[cut as int] == (seq![','] + base@)[0]) by {
                    assert(dn@.skip(cut as int)[0] == dn@[cut as int]);
                }
                assert(dn@.subrange(cut + 1, cut + 1 + base@.len()) =~= base@) by {
                    assert(forall|j: int|
                        #![trigger dn@.subrange(cut + 1, cut + 1 + base@.len())[j]]
                        0 <= j < base@.len() ==> dn@.subrange(
                            cut + 1,
                            cut + 1 + base@.len(),
                        )[j] == dn@.skip(cut as int)[j + 1]);
                }
                assert(matches_at(dn@, base@, cut + 1));
            }
        }
        None
    }
}

/// Strips the base-DN suffix from `e`'s DN and stores the entry under the
/// remainder. An entry whose DN does not end in `"," + base` is not stored,
/// and the store is left unchanged. A well-formed store stays well formed.
pub fn ingest_search_result(store: &mut EntryStore, base: &String, e: Entry) -> (stored: bool)
    ensures
        stored == (strip_suffix_dn(e.rdn@, base@) is Some),
        old(store).wf() && e.wf() ==> final(store).wf(),
        !stored ==> final(store)@ == old(store)@,
        stored ==> ({
            let stripped = strip_suffix_dn(e.rdn@, base@)->0;
            let ev = EntryV { rdn: stripped, attrs: e@.attrs, bin_attrs: e@.bin_attrs };
            let k = index_of_rdn(old(store)@, stripped);
            &&& stripped + seq![','] + base@ == e.rdn@
            &&& (k < 0 ==> final(store)@ == old(store)@.push(ev))
            &&& (k >= 0 ==> final(store)@ == old(store)@.update(k, ev))
        }),
{
    match strip_base_dn(&e.rdn, base) {
        Some(stripped) => {
            let new_entry = Entry { rdn: stripped, attrs: e.attrs, bin_attrs: e.bin_attrs };
            proof {
                assert(new_entry@ == EntryV {
                    rdn: strip_suffix_dn(e.rdn@, base@)->0,
                    attrs: e@.attrs,
                    bin_attrs: e@.bin_attrs,
                });
            }
            store.insert(new_entry);
            true
        },
        None => false,
    }
}

} // verus!
