use sync_ldap_subtrees::entry::{Attr, BinAttr, Entry, EntryStore, strip_base_dn, ingest_search_result};
use sync_ldap_subtrees::schema::{AttributeSchema, Schema};
use sync_ldap_subtrees::ops::{Operation, TextMod};
use sync_ldap_subtrees::diff::{diff_entries, mod_value, text_mods_for, bin_mods_for};
use sync_ldap_subtrees::text::replace_all;
use sync_ldap_subtrees::dn::{compare_dns, dn_ancestor_of, split_dn};
use sync_ldap_subtrees::apply::{full_dn, plan_requests, combined_attrs, Request, ByteMod};
use sync_ldap_subtrees::filter::{Filter, transform_base_dns, render_filter};
use sync_ldap_subtrees::values::values_equal_any_order;

fn s(x: &str) -> String {
    x.to_string()
}

fn text_entry(rdn: &str, attrs: Vec<(&str, Vec<&str>)>) -> Entry {
    Entry {
        rdn: s(rdn),
        attrs: attrs
            .into_iter()
            .map(|(n, vs)| Attr { name: s(n), values: vs.into_iter().map(s).collect() })
            .collect(),
        bin_attrs: Vec::new(),
    }
}

fn store_of(entries: Vec<Entry>) -> EntryStore {
    let mut st = EntryStore::new();
    for e in entries {
        st.insert(e);
    }
    st
}

fn empty_schema() -> Schema {
    Schema { attrs: Vec::new() }
}

fn schema_of(attrs: Vec<(&str, bool, bool)>) -> Schema {
    Schema {
        attrs: attrs
            .into_iter()
            .map(|(n, dn_syntax, case_insensitive)| AttributeSchema {
                name: s(n),
                dn_syntax,
                case_insensitive,
            })
            .collect(),
    }
}

fn no_strings() -> Vec<String> {
    Vec::new()
}

fn op_rdn(op: &Operation) -> &str {
    match op {
        Operation::Add(e) => &e.rdn,
        Operation::Delete { rdn } => rdn,
        Operation::Modify { rdn, .. } => rdn,
    }
}

#[test]
fn scenario_add_missing_entries() {
    // The source holds ou=people and cn=a,ou=people, the destination is
    // empty, only additions are enabled: the plan adds the parent first.
    let source = store_of(vec![
        text_entry("cn=a,ou=people", vec![("objectClass", vec!["top", "person"]), ("cn", vec!["a"])]),
        text_entry("ou=people", vec![("objectClass", vec!["top", "organizationalUnit"])]),
    ]);
    let destination = store_of(vec![]);
    let plan = diff_entries(
        &source,
        &destination,
        &s("dc=src,dc=x"),
        &s("dc=src,dc=x"),
        &no_strings(),
        &no_strings(),
        &empty_schema(),
        true,
        false,
        false,
    );
    assert_eq!(plan.len(), 2);
    assert_eq!(op_rdn(&plan[0]), "ou=people");
    assert_eq!(op_rdn(&plan[1]), "cn=a,ou=people");
    match &plan[1] {
        Operation::Add(e) => {
            assert_eq!(e.rdn, "cn=a,ou=people");
            assert_eq!(e.attrs.len(), 2);
            assert_eq!(e.attrs[0].name, "objectClass");
            assert_eq!(e.attrs[0].values, vec![s("top"), s("person")]);
            assert_eq!(e.attrs[1].name, "cn");
            assert_eq!(e.attrs[1].values, vec![s("a")]);
        },
        _ => panic!("expected an Add"),
    }
}

#[test]
fn scenario_dn_valued_attribute_rewritten() {
    // A member attribute with DN syntax is re-rooted from the source
    // base to the destination base when the entry is added.
    let source = store_of(vec![text_entry(
        "cn=g,ou=groups",
        vec![("member", vec!["cn=u,dc=src,dc=x"])],
    )]);
    let destination = store_of(vec![]);
    let schema = schema_of(vec![("member", true, false)]);
    let plan = diff_entries(
        &source,
        &destination,
        &s("dc=src,dc=x"),
        &s("dc=dst,dc=x"),
        &no_strings(),
        &no_strings(),
        &schema,
        true,
        false,
        false,
    );
    assert_eq!(plan.len(), 1);
    match &plan[0] {
        Operation::Add(e) => {
            assert_eq!(e.attrs[0].name, "member");
            assert_eq!(e.attrs[0].values, vec![s("cn=u,dc=dst,dc=x")]);
        },
        _ => panic!("expected an Add"),
    }
}

#[test]
fn scenario_case_insensitive_values_left_alone() {
    // Here mail differs only in case and its equality rule ignores case, so
    // no Modify is emitted.
    let source = store_of(vec![text_entry("cn=a", vec![("mail", vec!["A@x"])])]);
    let destination = store_of(vec![text_entry("cn=a", vec![("mail", vec!["a@x"])])]);
    let schema = schema_of(vec![("mail", false, true)]);
    let plan = diff_entries(
        &source,
        &destination,
        &s("dc=src,dc=x"),
        &s("dc=dst,dc=x"),
        &no_strings(),
        &no_strings(),
        &schema,
        false,
        true,
        false,
    );
    assert_eq!(plan.len(), 0);
}

#[test]
fn scenario_case_sensitive_values_replaced() {
    // The same pair of entries with a case-sensitive schema does get a
    // Modify: the case folding really happens in the comparison above.
    let source = store_of(vec![text_entry("cn=a", vec![("mail", vec!["A@x"])])]);
    let destination = store_of(vec![text_entry("cn=a", vec![("mail", vec!["a@x"])])]);
    let schema = schema_of(vec![("mail", false, false)]);
    let plan = diff_entries(
        &source,
        &destination,
        &s("dc=src,dc=x"),
        &s("dc=dst,dc=x"),
        &no_strings(),
        &no_strings(),
        &schema,
        false,
        true,
        false,
    );
    assert_eq!(plan.len(), 1);
    match &plan[0] {
        Operation::Modify { rdn, mods, bin_mods } => {
            assert_eq!(rdn, "cn=a");
            assert_eq!(bin_mods.len(), 0);
            assert_eq!(mods.len(), 1);
            match &mods[0] {
                TextMod::Replace { attr, values } => {
                    assert_eq!(attr, "mail");
                    assert_eq!(values, &vec![s("A@x")]);
                },
                _ => panic!("expected a Replace"),
            }
        },
        _ => panic!("expected a Modify"),
    }
}

#[test]
fn scenario_delete_extra_entry() {
    // An entry only the destination holds is deleted, and when its
    // parent is deleted too the child sorts first.
    let source = store_of(vec![]);
    let destination = store_of(vec![
        text_entry("ou=people", vec![("objectClass", vec!["top"])]),
        text_entry("cn=z,ou=people", vec![("objectClass", vec!["top"])]),
    ]);
    let plan = diff_entries(
        &source,
        &destination,
        &s("dc=src,dc=x"),
        &s("dc=dst,dc=x"),
        &no_strings(),
        &no_strings(),
        &empty_schema(),
        false,
        false,
        true,
    );
    assert_eq!(plan.len(), 2);
    assert_eq!(op_rdn(&plan[0]), "cn=z,ou=people");
    assert_eq!(op_rdn(&plan[1]), "ou=people");
    assert!(matches!(&plan[0], Operation::Delete { .. }));
    assert!(matches!(&plan[1], Operation::Delete { .. }));
}

#[test]
fn scenario_adds_before_deletes_in_order() {
    // Adds come shallow to deep, then deletes deep to shallow.
    let source = store_of(vec![
        text_entry("cn=a,ou=people", vec![("cn", vec!["a"])]),
        text_entry("ou=people", vec![("ou", vec!["people"])]),
    ]);
    let destination = store_of(vec![
        text_entry("cn=z,ou=old", vec![("cn", vec!["z"])]),
        text_entry("ou=old", vec![("ou", vec!["old"])]),
    ]);
    let plan = diff_entries(
        &source,
        &destination,
        &s("dc=src,dc=x"),
        &s("dc=dst,dc=x"),
        &no_strings(),
        &no_strings(),
        &empty_schema(),
        true,
        false,
        true,
    );
    assert_eq!(plan.len(), 4);
    assert!(matches!(&plan[0], Operation::Add(_)));
    assert!(matches!(&plan[1], Operation::Add(_)));
    assert!(matches!(&plan[2], Operation::Delete { .. }));
    assert!(matches!(&plan[3], Operation::Delete { .. }));
    assert_eq!(op_rdn(&plan[0]), "ou=people");
    assert_eq!(op_rdn(&plan[1]), "cn=a,ou=people");
    assert_eq!(op_rdn(&plan[2]), "cn=z,ou=old");
    assert_eq!(op_rdn(&plan[3]), "ou=old");
}

#[test]
fn scenario_dry_run_issues_no_requests() {
    // Under dry-run the plan is computed but no request is produced.
    let source = store_of(vec![text_entry("cn=a", vec![("cn", vec!["a"])])]);
    let destination = store_of(vec![]);
    let plan = diff_entries(
        &source,
        &destination,
        &s("dc=src,dc=x"),
        &s("dc=dst,dc=x"),
        &no_strings(),
        &no_strings(),
        &empty_schema(),
        true,
        true,
        true,
    );
    assert_eq!(plan.len(), 1);
    let requests = plan_requests(plan, &s("dc=dst,dc=x"), true);
    assert_eq!(requests.len(), 0);
}

#[test]
fn second_run_after_adds_is_empty() {
    // Applying the Adds of the first run leaves nothing for the second run.
    let source = store_of(vec![
        text_entry("cn=a,ou=people", vec![("objectClass", vec!["top", "person"]), ("cn", vec!["a"])]),
        text_entry("ou=people", vec![("objectClass", vec!["top"])]),
    ]);
    let destination = store_of(vec![]);
    let schema = schema_of(vec![("member", true, false)]);
    let src_base = s("dc=src,dc=x");
    let dst_base = s("dc=dst,dc=x");
    let plan = diff_entries(
        &source,
        &destination,
        &src_base,
        &dst_base,
        &no_strings(),
        &no_strings(),
        &schema,
        true,
        true,
        true,
    );
    let mut new_destination = EntryStore::new();
    for op in plan {
        match op {
            Operation::Add(e) => new_destination.insert(e),
            _ => panic!("expected only Adds"),
        }
    }
    let second = diff_entries(
        &source,
        &new_destination,
        &src_base,
        &dst_base,
        &no_strings(),
        &no_strings(),
        &schema,
        true,
        true,
        true,
    );
    assert_eq!(second.len(), 0);
}

#[test]
fn ignored_attributes_and_classes_are_dropped() {
    // An ignored attribute never reaches the plan, and ignored object
    // classes are removed from objectClass.
    let source = store_of(vec![text_entry(
        "cn=a",
        vec![
            ("objectClass", vec!["top", "person", "localOnly"]),
            ("userPassword", vec!["secret"]),
            ("cn", vec!["a"]),
        ],
    )]);
    let destination = store_of(vec![]);
    let plan = diff_entries(
        &source,
        &destination,
        &s("dc=src,dc=x"),
        &s("dc=dst,dc=x"),
        &vec![s("localOnly")],
        &vec![s("userPassword")],
        &empty_schema(),
        true,
        false,
        false,
    );
    assert_eq!(plan.len(), 1);
    match &plan[0] {
        Operation::Add(e) => {
            assert_eq!(e.attrs.len(), 2);
            assert_eq!(e.attrs[0].name, "objectClass");
            assert_eq!(e.attrs[0].values, vec![s("top"), s("person")]);
            assert_eq!(e.attrs[1].name, "cn");
        },
        _ => panic!("expected an Add"),
    }
}

#[test]
fn attribute_missing_at_source_is_deleted() {
    let source = store_of(vec![text_entry("cn=a", vec![("cn", vec!["a"])])]);
    let destination = store_of(vec![text_entry(
        "cn=a",
        vec![("cn", vec!["a"]), ("description", vec!["old"])],
    )]);
    let plan = diff_entries(
        &source,
        &destination,
        &s("dc=src,dc=x"),
        &s("dc=dst,dc=x"),
        &no_strings(),
        &no_strings(),
        &empty_schema(),
        false,
        true,
        false,
    );
    assert_eq!(plan.len(), 1);
    match &plan[0] {
        Operation::Modify { mods, .. } => {
            assert_eq!(mods.len(), 1);
            match &mods[0] {
                TextMod::Delete { attr, values } => {
                    assert_eq!(attr, "description");
                    assert_eq!(values.len(), 0);
                },
                _ => panic!("expected a Delete modification"),
            }
        },
        _ => panic!("expected a Modify"),
    }
}

#[test]
fn attribute_missing_at_destination_is_added() {
    let source = store_of(vec![text_entry(
        "cn=a",
        vec![("cn", vec!["a"]), ("description", vec!["new"])],
    )]);
    let destination = store_of(vec![text_entry("cn=a", vec![("cn", vec!["a"])])]);
    let plan = diff_entries(
        &source,
        &destination,
        &s("dc=src,dc=x"),
        &s("dc=dst,dc=x"),
        &no_strings(),
        &no_strings(),
        &empty_schema(),
        false,
        true,
        false,
    );
    assert_eq!(plan.len(), 1);
    match &plan[0] {
        Operation::Modify { mods, .. } => {
            assert_eq!(mods.len(), 1);
            match &mods[0] {
                TextMod::Add { attr, values } => {
                    assert_eq!(attr, "description");
                    assert_eq!(values, &vec![s("new")]);
                },
                _ => panic!("expected an Add modification"),
            }
        },
        _ => panic!("expected a Modify"),
    }
}

#[test]
fn binary_attribute_difference_is_replaced() {
    let source = store_of(vec![Entry {
        rdn: s("cn=a"),
        attrs: Vec::new(),
        bin_attrs: vec![BinAttr { name: s("jpegPhoto"), values: vec![vec![1, 2, 3]] }],
    }]);
    let destination = store_of(vec![Entry {
        rdn: s("cn=a"),
        attrs: Vec::new(),
        bin_attrs: vec![BinAttr { name: s("jpegPhoto"), values: vec![vec![9]] }],
    }]);
    let plan = diff_entries(
        &source,
        &destination,
        &s("dc=src,dc=x"),
        &s("dc=dst,dc=x"),
        &no_strings(),
        &no_strings(),
        &empty_schema(),
        false,
        true,
        false,
    );
    assert_eq!(plan.len(), 1);
    match &plan[0] {
        Operation::Modify { mods, bin_mods, .. } => {
            assert_eq!(mods.len(), 0);
            assert_eq!(bin_mods.len(), 1);
            match &bin_mods[0] {
                sync_ldap_subtrees::ops::BinMod::Replace { attr, values } => {
                    assert_eq!(attr, "jpegPhoto");
                    assert_eq!(values, &vec![vec![1u8, 2, 3]]);
                },
                _ => panic!("expected a binary Replace"),
            }
        },
        _ => panic!("expected a Modify"),
    }
}

#[test]
fn same_values_in_other_order_are_left_alone() {
    let source = store_of(vec![text_entry("cn=a", vec![("cn", vec!["x", "y"])])]);
    let destination = store_of(vec![text_entry("cn=a", vec![("cn", vec!["y", "x"])])]);
    let plan = diff_entries(
        &source,
        &destination,
        &s("dc=src,dc=x"),
        &s("dc=dst,dc=x"),
        &no_strings(),
        &no_strings(),
        &empty_schema(),
        false,
        true,
        false,
    );
    assert_eq!(plan.len(), 0);
}

#[test]
fn strip_base_dn_splits_and_restores() {
    // The stored key plus "," plus the base DN is the DN the server returned.
    let dn = s("cn=a,ou=people,dc=src,dc=x");
    let base = s("dc=src,dc=x");
    let stripped = strip_base_dn(&dn, &base).expect("suffix should match");
    assert_eq!(stripped, "cn=a,ou=people");
    assert_eq!(format!("{},{}", stripped, base), dn);
}

#[test]
fn strip_base_dn_rejects_foreign_suffix() {
    // An entry outside the base is skipped.
    assert!(strip_base_dn(&s("cn=a,dc=other,dc=y"), &s("dc=src,dc=x")).is_none());
    assert!(strip_base_dn(&s("dc=src,dc=x"), &s("dc=src,dc=x")).is_none());
}

#[test]
fn ingest_skips_entries_outside_base() {
    let mut store = EntryStore::new();
    let base = s("dc=src,dc=x");
    let good = text_entry("cn=a,dc=src,dc=x", vec![("cn", vec!["a"])]);
    let bad = text_entry("cn=b,dc=other,dc=y", vec![("cn", vec!["b"])]);
    assert!(ingest_search_result(&mut store, &base, good));
    assert!(!ingest_search_result(&mut store, &base, bad));
    assert_eq!(store.len(), 1);
    assert!(store.get(&s("cn=a")).is_some());
}

#[test]
fn replace_all_substitutes_every_occurrence() {
    assert_eq!(
        replace_all(&s("cn=u,dc=src,dc=x"), &s("dc=src,dc=x"), &s("dc=dst,dc=x")),
        "cn=u,dc=dst,dc=x"
    );
    assert_eq!(replace_all(&s("abcabc"), &s("abc"), &s("z")), "zz");
    assert_eq!(replace_all(&s("nothing"), &s("xyz"), &s("q")), "nothing");
    assert_eq!(replace_all(&s("keep"), &s(""), &s("q")), "keep");
}

#[test]
fn dn_comparison_orders_ancestors_first() {
    assert!(compare_dns(&s("ou=people"), &s("cn=a,ou=people")) < 0);
    assert!(compare_dns(&s("cn=a,ou=people"), &s("ou=people")) > 0);
    assert_eq!(compare_dns(&s("cn=a,ou=people"), &s("cn=a,ou=people")), 0);
    assert!(compare_dns(&s("cn=a,ou=people"), &s("cn=b,ou=people")) < 0);
    assert!(dn_ancestor_of(&s("ou=people"), &s("cn=a,ou=people")));
    assert!(!dn_ancestor_of(&s("cn=a,ou=people"), &s("ou=people")));
    assert!(!dn_ancestor_of(&s("ou=people"), &s("ou=people")));
    assert!(!dn_ancestor_of(&s("ou=other"), &s("cn=a,ou=people")));
}

#[test]
fn split_dn_separates_components() {
    let parts = split_dn(&s("cn=a,ou=people,dc=x"));
    assert_eq!(parts, vec![s("cn=a"), s("ou=people"), s("dc=x")]);
    assert_eq!(split_dn(&s("dc=x")), vec![s("dc=x")]);
}

#[test]
fn full_dn_joins_relative_and_base() {
    assert_eq!(full_dn(&s("cn=a,ou=people"), &s("dc=dst,dc=x")), "cn=a,ou=people,dc=dst,dc=x");
}

#[test]
fn requests_carry_merged_byte_attributes() {
    let e = Entry {
        rdn: s("cn=a"),
        attrs: vec![Attr { name: s("cn"), values: vec![s("a"), s("a")] }],
        bin_attrs: vec![BinAttr { name: s("jpegPhoto"), values: vec![vec![7]] }],
    };
    let merged = combined_attrs(&e);
    assert_eq!(merged.len(), 2);
    assert_eq!(merged[0].0, b"jpegPhoto".to_vec());
    assert_eq!(merged[0].1, vec![vec![7u8]]);
    assert_eq!(merged[1].0, b"cn".to_vec());
    assert_eq!(merged[1].1, vec![b"a".to_vec()]);

    let plan = vec![Operation::Add(e)];
    let requests = plan_requests(plan, &s("dc=dst,dc=x"), false);
    assert_eq!(requests.len(), 1);
    match &requests[0] {
        Request::Add { dn, attrs } => {
            assert_eq!(dn, "cn=a,dc=dst,dc=x");
            assert_eq!(attrs.len(), 2);
        },
        _ => panic!("expected an Add request"),
    }
}

#[test]
fn modify_request_unifies_text_and_binary_mods() {
    let plan = vec![Operation::Modify {
        rdn: s("cn=a"),
        mods: vec![TextMod::Replace { attr: s("cn"), values: vec![s("a")] }],
        bin_mods: vec![sync_ldap_subtrees::ops::BinMod::Delete {
            attr: s("jpegPhoto"),
            values: Vec::new(),
        }],
    }];
    let requests = plan_requests(plan, &s("dc=dst,dc=x"), false);
    assert_eq!(requests.len(), 1);
    match &requests[0] {
        Request::Modify { dn, mods } => {
            assert_eq!(dn, "cn=a,dc=dst,dc=x");
            assert_eq!(mods.len(), 2);
            match &mods[0] {
                ByteMod::Delete { attr, values } => {
                    assert_eq!(attr, &b"jpegPhoto".to_vec());
                    assert_eq!(values.len(), 0);
                },
                _ => panic!("expected the binary Delete first"),
            }
            match &mods[1] {
                ByteMod::Replace { attr, values } => {
                    assert_eq!(attr, &b"cn".to_vec());
                    assert_eq!(values, &vec![b"a".to_vec()]);
                },
                _ => panic!("expected the converted Replace second"),
            }
        },
        _ => panic!("expected a Modify request"),
    }
}

#[test]
fn delete_request_uses_full_dn() {
    let plan = vec![Operation::Delete { rdn: s("cn=z,ou=old") }];
    let requests = plan_requests(plan, &s("dc=dst,dc=x"), false);
    assert_eq!(requests.len(), 1);
    match &requests[0] {
        Request::DeleteRecursive { dn } => {
            assert_eq!(dn, "cn=z,ou=old,dc=dst,dc=x");
        },
        _ => panic!("expected a recursive delete request"),
    }
}

#[test]
fn filter_transform_rewrites_dn_terms() {
    let f = Filter::And(vec![
        Filter::Equal {
            attribute_name: s("member"),
            attribute_value: s("cn=u,dc=src,dc=x"),
        },
        Filter::Equal { attribute_name: s("cn"), attribute_value: s("dc=src,dc=x") },
        Filter::Present { attribute_name: s("objectClass") },
    ]);
    let schema = schema_of(vec![("member", true, false)]);
    let t = transform_base_dns(&f, &schema, &s("dc=src,dc=x"), &s("dc=dst,dc=x"));
    assert_eq!(
        render_filter(&t),
        "(&(member=cn=u,dc=dst,dc=x)(cn=dc=src,dc=x)(objectClass=*))"
    );
}

#[test]
fn filter_render_round_shapes() {
    let f = Filter::Or(vec![
        Filter::Not(Box::new(Filter::Greater {
            attribute_name: s("uidNumber"),
            attribute_value: s("1000"),
        })),
        Filter::Less { attribute_name: s("gidNumber"), attribute_value: s("500") },
        Filter::Approx { attribute_name: s("cn"), attribute_value: s("smith") },
        Filter::Substring { attribute_name: s("uid"), attribute_value: s("m*") },
    ]);
    assert_eq!(
        render_filter(&f),
        "(|(!(uidNumber>=1000))(gidNumber<=500)(cn=~smith)(uid=m*))"
    );
}

#[test]
fn mod_value_deletes_attribute_missing_at_source() {
    let se = text_entry("cn=a", vec![("cn", vec!["a"])]);
    let de = text_entry("cn=a", vec![("cn", vec!["a"]), ("sn", vec!["x"])]);
    let m = mod_value(
        &s("sn"),
        &se,
        &empty_schema(),
        &s("dc=src,dc=x"),
        Some(&de),
        &s("dc=dst,dc=x"),
        &no_strings(),
    );
    match m {
        Some(TextMod::Delete { attr, values }) => {
            assert_eq!(attr, "sn");
            assert_eq!(values.len(), 0);
        },
        _ => panic!("expected a Delete modification"),
    }
}

#[test]
fn mod_value_replacement_is_deduplicated() {
    let se = text_entry("cn=a", vec![("cn", vec!["a", "a", "b"])]);
    let de = text_entry("cn=a", vec![("cn", vec!["z"])]);
    let m = mod_value(
        &s("cn"),
        &se,
        &empty_schema(),
        &s("dc=src,dc=x"),
        Some(&de),
        &s("dc=dst,dc=x"),
        &no_strings(),
    );
    match m {
        Some(TextMod::Replace { attr, values }) => {
            assert_eq!(attr, "cn");
            assert_eq!(values, vec![s("a"), s("b")]);
        },
        _ => panic!("expected a Replace modification"),
    }
}

#[test]
fn values_equal_any_order_counts_multiplicity() {
    assert!(values_equal_any_order(&vec![s("a"), s("b")], &vec![s("b"), s("a")]));
    assert!(!values_equal_any_order(&vec![s("a")], &vec![s("a"), s("a")]));
    assert!(!values_equal_any_order(&vec![s("a")], &vec![s("b")]));
    assert!(values_equal_any_order(&Vec::new(), &Vec::new()));
}

#[test]
fn entry_lookup_and_mods_lists() {
    let se = text_entry("cn=a", vec![("cn", vec!["a"]), ("sn", vec!["s"])]);
    let de = text_entry("cn=a", vec![("cn", vec!["a"]), ("sn", vec!["t"])]);
    let mods = text_mods_for(
        &se,
        &de,
        &empty_schema(),
        &s("dc=src,dc=x"),
        &s("dc=dst,dc=x"),
        &no_strings(),
        &no_strings(),
    );
    assert_eq!(mods.len(), 1);
    match &mods[0] {
        TextMod::Replace { attr, values } => {
            assert_eq!(attr, "sn");
            assert_eq!(values, &vec![s("s")]);
        },
        _ => panic!("expected a Replace"),
    }
    let bmods = bin_mods_for(&se, &de, &no_strings());
    assert_eq!(bmods.len(), 0);
}

#[test]
fn store_insert_replaces_same_key() {
    let mut store = EntryStore::new();
    store.insert(text_entry("cn=a", vec![("cn", vec!["a"])]));
    store.insert(text_entry("cn=b", vec![("cn", vec!["b"])]));
    store.insert(text_entry("cn=a", vec![("cn", vec!["a2"])]));
    assert_eq!(store.len(), 2);
    let e = store.get(&s("cn=a")).expect("cn=a should be present");
    assert_eq!(e.attrs[0].values, vec![s("a2")]);
}

#[test]
fn plan_places_modifies_between_adds_and_deletes() {
    let source = store_of(vec![
        text_entry("cn=new", vec![("cn", vec!["new"])]),
        text_entry("cn=a", vec![("cn", vec!["changed"])]),
    ]);
    let destination = store_of(vec![
        text_entry("cn=a", vec![("cn", vec!["stale"])]),
        text_entry("cn=gone", vec![("cn", vec!["gone"])]),
    ]);
    let plan = diff_entries(
        &source,
        &destination,
        &s("dc=src,dc=x"),
        &s("dc=dst,dc=x"),
        &no_strings(),
        &no_strings(),
        &empty_schema(),
        true,
        true,
        true,
    );
    assert_eq!(plan.len(), 3);
    assert!(matches!(&plan[0], Operation::Add(_)));
    assert!(matches!(&plan[1], Operation::Modify { .. }));
    assert!(matches!(&plan[2], Operation::Delete { .. }));
    assert_eq!(op_rdn(&plan[0]), "cn=new");
    assert_eq!(op_rdn(&plan[1]), "cn=a");
    assert_eq!(op_rdn(&plan[2]), "cn=gone");
}
