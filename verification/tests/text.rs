use avbroot::text::{contains_name, insert_sorted, lex_order, sorted_unique, starts_with, str_eq, to_chars, Rank};

#[test]
fn strings_compare_by_content() {
    assert!(str_eq("", ""));
    assert!(str_eq("boot", "boot"));
    assert!(!str_eq("boot", "boo"));
    assert!(!str_eq("boot", "bool"));
    assert!(str_eq("gr\u{fc}n", "gr\u{fc}n"));
    assert!(!str_eq("gr\u{fc}n", "grun"));
}

#[test]
fn characters_come_out_in_order() {
    assert_eq!(to_chars("a=b"), vec!['a', '=', 'b']);
    assert_eq!(to_chars("\u{e9}t\u{e9}"), vec!['\u{e9}', 't', '\u{e9}']);
    assert!(to_chars("").is_empty());
}

#[test]
fn prefixes_are_found() {
    assert!(starts_with("vbmeta_system", "vbmeta"));
    assert!(starts_with("vbmeta", "vbmeta"));
    assert!(starts_with("anything", ""));
    assert!(!starts_with("vbmet", "vbmeta"));
    assert!(!starts_with("xvbmeta", "vbmeta"));
}

#[test]
fn order_is_that_of_std() {
    let samples = [
        "", "a", "ab", "b", "B", "payload.bin", "payload_properties.txt", "META-INF/com/android/metadata",
        "META-INF/com/android/metadata.pb", "META-INF/com/android/otacert", "z\u{e9}", "z\u{10348}", "z\u{ffff}", "zz",
    ];
    for a in samples {
        for b in samples {
            let expected = match a.cmp(b) {
                std::cmp::Ordering::Less => Rank::Before,
                std::cmp::Ordering::Equal => Rank::Same,
                std::cmp::Ordering::Greater => Rank::After,
            };
            assert_eq!(lex_order(a, b), expected);
        }
    }
}

#[test]
fn sorting_drops_duplicates() {
    let names: Vec<String> = ["vbmeta", "boot", "system", "boot", "apex", "vbmeta"].iter().map(|s| s.to_string()).collect();
    assert_eq!(sorted_unique(&names), vec!["apex", "boot", "system", "vbmeta"]);
    assert!(sorted_unique(&Vec::new()).is_empty());
}

#[test]
fn sorting_agrees_with_a_btree_set() {
    let names: Vec<String> = ["b", "a\u{e9}", "a", "ab", "", "b", "Z", "a\u{10348}"].iter().map(|s| s.to_string()).collect();
    let expected: Vec<String> = names.iter().cloned().collect::<std::collections::BTreeSet<_>>().into_iter().collect();
    assert_eq!(sorted_unique(&names), expected);
}

#[test]
fn insertion_keeps_the_list_sorted() {
    let mut list: Vec<String> = vec!["a".to_string(), "c".to_string()];
    insert_sorted(&mut list, "b".to_string());
    assert_eq!(list, vec!["a", "b", "c"]);
    insert_sorted(&mut list, "b".to_string());
    assert_eq!(list, vec!["a", "b", "c"]);
    insert_sorted(&mut list, "d".to_string());
    insert_sorted(&mut list, "".to_string());
    assert_eq!(list, vec!["", "a", "b", "c", "d"]);
}

#[test]
fn names_are_looked_up() {
    let names: Vec<String> = vec!["boot".to_string(), "system".to_string()];
    assert!(contains_name(&names, "system"));
    assert!(!contains_name(&names, "vendor"));
}
