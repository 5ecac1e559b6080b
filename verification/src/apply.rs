//! The byte-level requests a directory client issues to apply a plan: the
//! full DN under the destination base, the merged attribute list of an Add,
//! and the unified binary modification list of a Modify.
use vstd::prelude::*;
use vstd::utf8::encode_utf8;
use crate::entry::{Entry, EntryV};
use crate::ops::{
    TextMod,
    TextModV,
    BinMod,
    BinModV,
    Operation,
    OperationV,
    op_views,
    bin_mod_views,
    text_mod_views,
};
use crate::values::{str_views, bin_views, dedup_seqs, dedup_bin_values, lemma_bin_views_push};
use crate::rewrite::clone_bin_values_list;

verus! {

/// The DN of an entry on the destination server: the relative DN, a comma,
/// and the destination base DN.
pub open spec fn full_dn_seq(rdn: Seq<char>, base: Seq<char>) -> Seq<char> {
    rdn + seq![','] + base
}

/// Joins a relative DN with the destination base DN.
pub fn full_dn(rdn: &String, base: &String) -> (r: String)
    ensures
        r@ == full_dn_seq(rdn@, base@),
{
    let mut r = rdn.clone();
    r.append(",");
    r.append(base.as_str());
    proof {
        reveal_strlit(",");
        assert(","@ =~= seq![',']);
        assert(r@ =~= rdn@ + seq![','] + base@);
    }
    r
}

/// The UTF-8 encodings of a collection of character sequences.
pub open spec fn encode_all(vs: Seq<Seq<char>>) -> Seq<Seq<u8>> {
    vs.map_values(|v: Seq<char>| encode_utf8(v))
}

/// The UTF-8 bytes of a string.
pub fn str_bytes(s: &String) -> (r: Vec<u8>)
    ensures
        r@ == encode_utf8(s@),
{
    s.as_str().as_bytes_vec()
}

/// Encodes every value as its UTF-8 bytes.
pub fn strings_to_bytes(vs: &Vec<String>) -> (r: Vec<Vec<u8>>)
    ensures
        bin_views(r@) == encode_all(str_views(vs@)),
{
    let mut r: Vec<Vec<u8>> = Vec::new();
    let mut i: usize = 0;
    proof {
        assert(bin_views(r@) =~= encode_all(str_views(vs@).take(0)));
    }
    while i < vs.len()
        invariant
            0 <= i <= vs@.len(),
            bin_views(r@) == encode_all(str_views(vs@).take(i as int)),
        decreases vs@.len() - i,
    {
        let ghost old_r = r@;
        let b = str_bytes(&vs[i]);
        let ghost bval = b;
        r.push(b);
        proof {
            lemma_bin_views_push(old_r, bval);
            assert(str_views(vs@).take(i + 1) =~= str_views(vs@).take(i as int).push(
                str_views(vs@)[i as int],
            ));
            assert(encode_all(str_views(vs@).take(i + 1)) =~= encode_all(
                str_views(vs@).take(i as int),
            ).push(encode_utf8(str_views(vs@)[i as int])));
            assert(bin_views(r@) == encode_all(str_views(vs@).take(i + 1)));
        }
        i = i + 1;
    }
    proof {
        assert(str_views(vs@).take(vs@.len() as int) =~= str_views(vs@));
    }
    r
}

/// A modification with its attribute name and values encoded as bytes, as
/// it goes on the wire.
pub enum ByteMod {
    Replace { attr: Vec<u8>, values: Vec<Vec<u8>> },
    Add { attr: Vec<u8>, values: Vec<Vec<u8>> },
    Delete { attr: Vec<u8>, values: Vec<Vec<u8>> },
    Increment { attr: Vec<u8>, value: Vec<u8> },
}

/// The mathematical shape of a byte-level modification.
pub enum ByteModV {
    Replace(Seq<u8>, Seq<Seq<u8>>),
    Add(Seq<u8>, Seq<Seq<u8>>),
    Delete(Seq<u8>, Seq<Seq<u8>>),
    Increment(Seq<u8>, Seq<u8>),
}

impl View for ByteMod {
    type V = ByteModV;

    open spec fn view(&self) -> ByteModV {
        match self {
            ByteMod::Replace { attr, values } => ByteModV::Replace(attr@, bin_views(values@)),
            ByteMod::Add { attr, values } => ByteModV::Add(attr@, bin_views(values@)),
            ByteMod::Delete { attr, values } => ByteModV::Delete(attr@, bin_views(values@)),
            ByteMod::Increment { attr, value } => ByteModV::Increment(attr@, value@),
        }
    }
}

/// The views of a sequence of byte-level modifications.
pub open spec fn byte_mod_views(ms: Seq<ByteMod>) -> Seq<ByteModV> {
    ms.map_values(|m: ByteMod| m@)
}

/// Taking views commutes with appending one byte-level modification.
pub proof fn lemma_byte_mod_views_push(s: Seq<ByteMod>, m: ByteMod)
    ensures
        byte_mod_views(s.push(m)) == byte_mod_views(s).push(m@),
{
    assert forall|j: int| 0 <= j < s.len() + 1 implies byte_mod_views(s.push(m))[j]
        == byte_mod_views(s).push(m@)[j] by {
        if j < s.len() {
            assert(s.push(m)[j] == s[j]);
        } else {
            assert(s.push(m)[j] == m);
        }
    }
    assert(byte_mod_views(s.push(m)) =~= byte_mod_views(s).push(m@));
}

/// One protocol request against the destination, ready to issue.
pub enum Request {
    /// Add the entry at the full DN with the merged attribute list.
    Add { dn: String, attrs: Vec<(Vec<u8>, Vec<Vec<u8>>)> },
    /// Recursively delete the subtree rooted at the full DN.
    DeleteRecursive { dn: String },
    /// Apply the unified byte-level modification list to the entry.
    Modify { dn: String, mods: Vec<ByteMod> },
}

/// The mathematical shape of a request.
pub enum RequestV {
    Add(Seq<char>, Seq<(Seq<u8>, Seq<Seq<u8>>)>),
    DeleteRecursive(Seq<char>),
    Modify(Seq<char>, Seq<ByteModV>),
}

/// The name-to-values view of a merged attribute list.
pub open spec fn merged_attrs_view(s: Seq<(Vec<u8>, Vec<Vec<u8>>)>) -> Seq<(Seq<u8>, Seq<Seq<u8>>)> {
    s.map_values(|p: (Vec<u8>, Vec<Vec<u8>>)| (p.0@, bin_views(p.1@)))
}

impl View for Request {
    type V = RequestV;

    open spec fn view(&self) -> RequestV {
        match self {
            Request::Add { dn, attrs } => RequestV::Add(dn@, merged_attrs_view(attrs@)),
            Request::DeleteRecursive { dn } => RequestV::DeleteRecursive(dn@),
            Request::Modify { dn, mods } => RequestV::Modify(dn@, byte_mod_views(mods@)),
        }
    }
}

/// The views of a sequence of requests.
pub open spec fn request_views(rs: Seq<Request>) -> Seq<RequestV> {
    rs.map_values(|r: Request| r@)
}

/// The merged attribute list of an Add: the binary attributes first, then
/// the textual attributes with names and values encoded as UTF-8 bytes;
/// value sets keep first occurrences only. Under the entry invariant the
/// two lists share no name, so one request carries every attribute.
pub open spec fn combined_attrs_spec(e: EntryV) -> Seq<(Seq<u8>, Seq<Seq<u8>>)> {
    e.bin_attrs.map_values(|p: (Seq<char>, Seq<Seq<u8>>)| (encode_utf8(p.0), dedup_seqs(p.1)))
        + e.attrs.map_values(
        |p: (Seq<char>, Seq<Seq<char>>)| (encode_utf8(p.0), dedup_seqs(encode_all(p.1))),
    )
}

/// Merges an entry's binary and textual attributes into one byte-level
/// attribute list for a single Add request.
pub fn combined_attrs(e: &Entry) -> (r: Vec<(Vec<u8>, Vec<Vec<u8>>)>)
    ensures
        merged_attrs_view(r@) == combined_attrs_spec(e@),
{
    let ghost binpart = e@.bin_attrs.map_values(
        |p: (Seq<char>, Seq<Seq<u8>>)| (encode_utf8(p.0), dedup_seqs(p.1)),
    );
    let ghost textpart = e@.attrs.map_values(
        |p: (Seq<char>, Seq<Seq<char>>)| (encode_utf8(p.0), dedup_seqs(encode_all(p.1))),
    );
    let mut r: Vec<(Vec<u8>, Vec<Vec<u8>>)> = Vec::new();
    let mut i: usize = 0;
    proof {
        assert(merged_attrs_view(r@) =~= binpart.take(0));
    }
    while i < e.bin_attrs.len()
        invariant
            0 <= i <= e.bin_attrs@.len(),
            binpart == e@.bin_attrs.map_values(
                |p: (Seq<char>, Seq<Seq<u8>>)| (encode_utf8(p.0), dedup_seqs(p.1)),
            ),
            e@.bin_attrs.len() == e.bin_attrs@.len(),
            merged_attrs_view(r@) == binpart.take(i as int),
        decreases e.bin_attrs@.len() - i,
    {
        let a = &e.bin_attrs[i];
        let name = str_bytes(&a.name);
        let vals = dedup_bin_values(&a.values);
        let ghost pushed = (name, vals);
        let ghost old_r = r@;
        r.push((name, vals));
        proof {
            assert(e@.bin_attrs[i as int] == (e.bin_attrs@[i as int].name@, bin_views(
                e.bin_attrs@[i as int].values@,
            )));
            assert(r@ == old_r.push(pushed));
            assert(merged_attrs_view(old_r).len() == old_r.len());
            assert(old_r.len() == i as int);
            assert(merged_attrs_view(r@).len() == r@.len());
            assert(merged_attrs_view(r@) =~= binpart.take(i + 1)) by {
                assert forall|t: int| 0 <= t < r@.len() implies merged_attrs_view(r@)[t]
                    == binpart.take(i + 1)[t] by {
                    if t < i {
                        assert(r@[t] == old_r[t]);
                        assert(merged_attrs_view(old_r)[t] == binpart.take(i as int)[t]);
                    } else {
                        assert(r@[t] == pushed);
                        assert(pushed.0@ == encode_utf8(e@.bin_attrs[i as int].0));
                        assert(bin_views(pushed.1@) == dedup_seqs(e@.bin_attrs[i as int].1));
                    }
                }
            }
        }
        i = i + 1;
    }
    proof {
        assert(binpart.take(e.bin_attrs@.len() as int) =~= binpart);
    }
    let mut k: usize = 0;
    proof {
        assert(merged_attrs_view(r@) =~= binpart + textpart.take(0));
    }
    while k < e.attrs.len()
        invariant
            0 <= k <= e.attrs@.len(),
            binpart == e@.bin_attrs.map_values(
                |p: (Seq<char>, Seq<Seq<u8>>)| (encode_utf8(p.0), dedup_seqs(p.1)),
            ),
            textpart == e@.attrs.map_values(
                |p: (Seq<char>, Seq<Seq<char>>)| (encode_utf8(p.0), dedup_seqs(encode_all(p.1))),
            ),
            e@.attrs.len() == e.attrs@.len(),
            merged_attrs_view(r@) == binpart + textpart.take(k as int),
        decreases e.attrs@.len() - k,
    {
        let a = &e.attrs[k];
        let name = str_bytes(&a.name);
        let encoded = strings_to_bytes(&a.values);
        let vals = dedup_bin_values(&encoded);
        let ghost pushed = (name, vals);
        let ghost old_r = r@;
        r.push((name, vals));
        proof {
            assert(e@.attrs[k as int] == (e.attrs@[k as int].name@, str_views(
                e.attrs@[k as int].values@,
            )));
            assert(r@ == old_r.push(pushed));
            assert(merged_attrs_view(old_r).len() == old_r.len());
            assert(old_r.len() == binpart.len() + k as int);
            assert(merged_attrs_view(r@).len() == r@.len());
            assert(merged_attrs_view(r@) =~= binpart + textpart.take(k + 1)) by {
                assert forall|t: int| 0 <= t < r@.len() implies merged_attrs_view(r@)[t] == (binpart
                    + textpart.take(k + 1))[t] by {
                    if t < old_r.len() {
                        assert(r@[t] == old_r[t]);
                        assert(merged_attrs_view(old_r)[t] == (binpart + textpart.take(
                            k as int,
                        ))[t]);
                    } else {
                        assert(r@[t] == pushed);
                        assert(pushed.0@ == encode_utf8(e@.attrs[k as int].0));
                        assert(bin_views(pushed.1@) == dedup_seqs(encode_all(e@.attrs[k as int].1)));
                    }
                }
            }
        }
        k = k + 1;
    }
    proof {
        assert(textpart.take(e.attrs@.len() as int) =~= textpart);
    }
    r
}

/// The byte-level image of one textual modification: the attribute name and
/// every value encoded as UTF-8 bytes.
pub open spec fn text_mod_as_byte(m: TextModV) -> ByteModV {
    match m {
        TextModV::Replace(a, vs) => ByteModV::Replace(encode_utf8(a), encode_all(vs)),
        TextModV::Add(a, vs) => ByteModV::Add(encode_utf8(a), encode_all(vs)),
        TextModV::Delete(a, vs) => ByteModV::Delete(encode_utf8(a), encode_all(vs)),
        TextModV::Increment(a, v) => ByteModV::Increment(encode_utf8(a), encode_utf8(v)),
    }
}

/// The byte-level image of one binary modification: only the attribute name
/// still needs encoding.
pub open spec fn bin_mod_as_byte(m: BinModV) -> ByteModV {
    match m {
        BinModV::Replace(a, vs) => ByteModV::Replace(encode_utf8(a), vs),
        BinModV::Add(a, vs) => ByteModV::Add(encode_utf8(a), vs),
        BinModV::Delete(a, vs) => ByteModV::Delete(encode_utf8(a), vs),
        BinModV::Increment(a, v) => ByteModV::Increment(encode_utf8(a), v),
    }
}

/// Converts textual modifications into byte-valued modifications, so that a
/// single Modify request can carry both kinds at once.
pub fn mods_as_bin_mods(mods: &Vec<TextMod>) -> (r: Vec<ByteMod>)
    ensures
        byte_mod_views(r@) == text_mod_views(mods@).map_values(|m: TextModV| text_mod_as_byte(m)),
{
    let ghost target = text_mod_views(mods@).map_values(|m: TextModV| text_mod_as_byte(m));
    let mut r: Vec<ByteMod> = Vec::new();
    let mut i: usize = 0;
    proof {
        assert(byte_mod_views(r@) =~= target.take(0));
    }
    while i < mods.len()
        invariant
            0 <= i <= mods@.len(),
            target == text_mod_views(mods@).map_values(|m: TextModV| text_mod_as_byte(m)),
            mods@.len() == text_mod_views(mods@).len(),
            byte_mod_views(r@) == target.take(i as int),
        decreases mods@.len() - i,
    {
        let m: ByteMod = match &mods[i] {
            TextMod::Replace { attr, values } => {
                let a = str_bytes(attr);
                let vs = strings_to_bytes(values);
                ByteMod::Replace { attr: a, values: vs }
            },
            TextMod::Add { attr, values } => {
                let a = str_bytes(attr);
                let vs = strings_to_bytes(values);
                ByteMod::Add { attr: a, values: vs }
            },
            TextMod::Delete { attr, values } => {
                let a = str_bytes(attr);
                let vs = strings_to_bytes(values);
                ByteMod::Delete { attr: a, values: vs }
            },
            TextMod::Increment { attr, value } => {
                let a = str_bytes(attr);
                let v = str_bytes(value);
                ByteMod::Increment { attr: a, value: v }
            },
        };
        proof {
            assert(m@ == text_mod_as_byte(mods@[i as int]@));
            assert(text_mod_views(mods@)[i as int] == mods@[i as int]@);
            assert(target[i as int] == text_mod_as_byte(text_mod_views(mods@)[i as int]));
        }
        let ghost old_r = r@;
        let ghost mval = m;
        r.push(m);
        proof {
            lemma_byte_mod_views_push(old_r, mval);
            assert(target.take(i + 1) =~= target.take(i as int).push(target[i as int]));
            assert(byte_mod_views(r@) == target.take(i + 1));
        }
        i = i + 1;
    }
    proof {
        assert(target.take(mods@.len() as int) =~= target);
    }
    r
}

/// Encodes the attribute names of binary modifications, so that a single
/// Modify request can carry both kinds at once.
pub fn bin_mods_as_byte_mods(mods: &Vec<BinMod>) -> (r: Vec<ByteMod>)
    ensures
        byte_mod_views(r@) == bin_mod_views(mods@).map_values(|m: BinModV| bin_mod_as_byte(m)),
{
    let ghost target = bin_mod_views(mods@).map_values(|m: BinModV| bin_mod_as_byte(m));
    let mut r: Vec<ByteMod> = Vec::new();
    let mut i: usize = 0;
    proof {
        assert(byte_mod_views(r@) =~= target.take(0));
    }
    while i < mods.len()
        invariant
            0 <= i <= mods@.len(),
            target == bin_mod_views(mods@).map_values(|m: BinModV| bin_mod_as_byte(m)),
            mods@.len() == bin_mod_views(mods@).len(),
            byte_mod_views(r@) == target.take(i as int),
        decreases mods@.len() - i,
    {
        let m: ByteMod = match &mods[i] {
            BinMod::Replace { attr, values } => {
                let a = str_bytes(attr);
                let vs = clone_bin_values_list(values);
                ByteMod::Replace { attr: a, values: vs }
            },
            BinMod::Add { attr, values } => {
                let a = str_bytes(attr);
                let vs = clone_bin_values_list(values);
                ByteMod::Add { attr: a, values: vs }
            },
            BinMod::Delete { attr, values } => {
                let a = str_bytes(attr);
                let vs = clone_bin_values_list(values);
                ByteMod::Delete { attr: a, values: vs }
            },
            BinMod::Increment { attr, value } => {
                let a = str_bytes(attr);
                let v = crate::values::clone_bytes(value);
                ByteMod::Increment { attr: a, value: v }
            },
        };
        proof {
            assert(m@ == bin_mod_as_byte(mods@[i as int]@));
            assert(bin_mod_views(mods@)[i as int] == mods@[i as int]@);
            assert(target[i as int] == bin_mod_as_byte(bin_mod_views(mods@)[i as int]));
        }
        let ghost old_r = r@;
        let ghost mval = m;
        r.push(m);
        proof {
            lemma_byte_mod_views_push(old_r, mval);
            assert(target.take(i + 1) =~= target.take(i as int).push(target[i as int]));
            assert(byte_mod_views(r@) == target.take(i + 1));
        }
        i = i + 1;
    }
    proof {
        assert(target.take(mods@.len() as int) =~= target);
    }
    r
}

/// The request one plan step turns into.
pub open spec fn request_of(op: OperationV, base: Seq<char>) -> RequestV {
    match op {
        OperationV::Add(e) => RequestV::Add(full_dn_seq(e.rdn, base), combined_attrs_spec(e)),
        OperationV::Delete(rdn) => RequestV::DeleteRecursive(full_dn_seq(rdn, base)),
        OperationV::Modify(rdn, ms, bs) => RequestV::Modify(
            full_dn_seq(rdn, base),
            bs.map_values(|m: BinModV| bin_mod_as_byte(m)) + ms.map_values(
                |m: TextModV| text_mod_as_byte(m),
            ),
        ),
    }
}

/// The requests of a whole plan, in plan order.
pub open spec fn requests_spec(ops: Seq<OperationV>, base: Seq<char>) -> Seq<RequestV> {
    ops.map_values(|op: OperationV| request_of(op, base))
}

/// Turns the ordered plan into the protocol requests to issue, in order.
/// Under `dry_run` no request is produced: the plan is only computed.
pub fn plan_requests(ops: Vec<Operation>, base: &String, dry_run: bool) -> (r: Vec<Request>)
    ensures
        dry_run ==> r@.len() == 0,
        !dry_run ==> request_views(r@) == requests_spec(op_views(ops@), base@),
{
    let mut r: Vec<Request> = Vec::new();
    if dry_run {
        return r;
    }
    let ghost orig = op_views(ops@);
    let ghost target = requests_spec(orig, base@);
    let mut src = ops;
    let mut t: usize = 0;
    let total: usize = src.len();
    proof {
        assert(request_views(r@) =~= target.take(0));
        assert(op_views(src@) =~= orig.skip(0));
    }
    while src.len() > 0
        invariant
            total == orig.len(),
            t + src@.len() == total,
            target == requests_spec(orig, base@),
            op_views(src@) == orig.skip(t as int),
            request_views(r@) == target.take(t as int),
        decreases src@.len(),
    {
        let ghost old_src = src@;
        let op = src.remove(0);
        let ghost opval = op;
        proof {
            assert(op_views(src@) =~= op_views(old_src).drop_first()) by {
                assert(src@ == old_src.remove(0));
                assert forall|k: int| 0 <= k < src@.len() implies op_views(src@)[k] == op_views(
                    old_src,
                ).drop_first()[k] by {
                    assert(src@[k] == old_src[k + 1]);
                }
            }
            assert(op_views(old_src)[0] == opval@);
            assert(opval@ == orig[t as int]);
            assert(op_views(src@) =~= orig.skip(t + 1));
        }
        let req: Request = match op {
            Operation::Add(e) => {
                let dn = full_dn(&e.rdn, base);
                let attrs = combined_attrs(&e);
                Request::Add { dn, attrs }
            },
            Operation::Delete { rdn } => {
                let dn = full_dn(&rdn, base);
                Request::DeleteRecursive { dn }
            },
            Operation::Modify { rdn, mods, bin_mods } => {
                let dn = full_dn(&rdn, base);
                let converted = mods_as_bin_mods(&mods);
                let mut unified = bin_mods_as_byte_mods(&bin_mods);
                let ghost bin_part = byte_mod_views(unified@);
                let mut j: usize = 0;
                let ghost conv = byte_mod_views(converted@);
                proof {
                    assert(byte_mod_views(unified@) =~= bin_part + conv.take(0));
                }
                while j < converted.len()
                    invariant
                        0 <= j <= converted@.len(),
                        conv == byte_mod_views(converted@),
                        converted@.len() == conv.len(),
                        byte_mod_views(unified@) == bin_part + conv.take(j as int),
                    decreases converted@.len() - j,
                {
                    let ghost old_u = unified@;
                    let c = clone_byte_mod(&converted[j]);
                    let ghost cval = c;
                    unified.push(c);
                    proof {
                        lemma_byte_mod_views_push(old_u, cval);
                        assert(cval@ == conv[j as int]);
                        assert(bin_part + conv.take(j + 1) =~= (bin_part + conv.take(
                            j as int,
                        )).push(conv[j as int]));
                        assert(byte_mod_views(unified@) == bin_part + conv.take(j + 1));
                    }
                    j = j + 1;
                }
                proof {
                    assert(conv.take(converted@.len() as int) =~= conv);
                }
                Request::Modify { dn, mods: unified }
            },
        };
        proof {
            assert(req@ == request_of(opval@, base@)) by {
                match opval@ {
                    OperationV::Modify(rdn0, ms0, bs0) => {
                        assert(req@->Modify_1 =~= bs0.map_values(|m: BinModV| bin_mod_as_byte(m))
                            + ms0.map_values(|m: TextModV| text_mod_as_byte(m)));
                    },
                    _ => {},
                }
            }
            assert(target[t as int] == request_of(orig[t as int], base@));
        }
        let ghost old_r = r@;
        let ghost reqval = req;
        r.push(req);
        proof {
            lemma_request_views_push(old_r, reqval);
            assert(target.take(t + 1) =~= target.take(t as int).push(target[t as int]));
            assert(request_views(r@) == target.take(t + 1));
        }
        t = t + 1;
    }
    proof {
        assert(target.take(orig.len() as int) =~= target);
    }
    r
}

/// Copies one byte-level modification.
fn clone_byte_mod(m: &ByteMod) -> (r: ByteMod)
    ensures
        r@ == m@,
{
    match m {
        ByteMod::Replace { attr, values } => {
            let a = crate::values::clone_bytes(attr);
            let vs = clone_bin_values_list(values);
            ByteMod::Replace { attr: a, values: vs }
        },
        ByteMod::Add { attr, values } => {
            let a = crate::values::clone_bytes(attr);
            let vs = clone_bin_values_list(values);
            ByteMod::Add { attr: a, values: vs }
        },
        ByteMod::Delete { attr, values } => {
            let a = crate::values::clone_bytes(attr);
            let vs = clone_bin_values_list(values);
            ByteMod::Delete { attr: a, values: vs }
        },
        ByteMod::Increment { attr, value } => {
            let a = crate::values::clone_bytes(attr);
            let v = crate::values::clone_bytes(value);
            ByteMod::Increment { attr: a, value: v }
        },
    }
}

/// Taking views commutes with appending one request.
proof fn lemma_request_views_push(s: Seq<Request>, q: Request)
    ensures
        request_views(s.push(q)) == request_views(s).push(q@),
{
    assert forall|j: int| 0 <= j < s.len() + 1 implies request_views(s.push(q))[j] == request_views(
        s,
    ).push(q@)[j] by {
        if j < s.len() {
            assert(s.push(q)[j] == s[j]);
        } else {
            assert(s.push(q)[j] == q);
        }
    }
    assert(request_views(s.push(q)) =~= request_views(s).push(q@));
}

} // verus!
