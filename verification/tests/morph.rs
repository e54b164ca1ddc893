use dinamika::{chain_endpoints, group_by_key, group_endpoints, merge_plan, rebase_targets, TextPos};

fn s(x: &str) -> String {
    x.to_string()
}

#[test]
fn chain_endpoints_finds_base_and_final() {
    // "a" -> "ab" and "ab" -> "abc": the base is "a", the final "abc".
    let olds = vec![s("a"), s("ab")];
    let news = vec![s("ab"), s("abc")];
    assert_eq!(chain_endpoints(&olds, &news), Some((0, 1)));
    // In the other order the indices follow the items.
    let olds = vec![s("ab"), s("a")];
    let news = vec![s("abc"), s("ab")];
    assert_eq!(chain_endpoints(&olds, &news), Some((1, 0)));
}

#[test]
fn chain_endpoints_refuses_ambiguous_groups() {
    // Two independent edits: two bases and two finals.
    let olds = vec![s("a"), s("x")];
    let news = vec![s("b"), s("y")];
    assert_eq!(chain_endpoints(&olds, &news), None);
    // A cycle has no base at all.
    let olds = vec![s("a"), s("b")];
    let news = vec![s("b"), s("a")];
    assert_eq!(chain_endpoints(&olds, &news), None);
}

#[test]
fn chain_endpoints_works_on_highlight_sets() {
    let none: Vec<(TextPos, TextPos)> = vec![];
    let first = vec![(TextPos::Char(0), TextPos::Char(2))];
    let both = vec![(TextPos::Char(0), TextPos::Char(2)), (TextPos::Line(1), TextPos::End)];
    let olds = vec![none.clone(), first.clone()];
    let news = vec![first, both];
    assert_eq!(chain_endpoints(&olds, &news), Some((0, 1)));
}

#[test]
fn edits_group_by_key_in_first_seen_order() {
    let keys = vec![Some(7), None, Some(3), Some(7), Some(3), None, Some(9), Some(7)];
    let groups = group_by_key(&keys);
    assert_eq!(groups, vec![(7, vec![0, 3, 7]), (3, vec![2, 4]), (9, vec![6])]);
    assert!(group_by_key(&vec![None, None]).is_empty());
    assert!(group_by_key(&Vec::new()).is_empty());
}

#[test]
fn group_endpoints_take_the_chain_ends_of_the_members() {
    // Edits 0, 2 and 3 share a state: "a" -> "ab", "abc" -> "abcd", "ab" -> "abc".
    let olds = vec![Some(s("a")), Some(s("x")), Some(s("abc")), Some(s("ab"))];
    let news = vec![Some(s("ab")), Some(s("y")), Some(s("abcd")), Some(s("abc"))];
    assert_eq!(group_endpoints(&vec![0, 2, 3], &olds, &news), Some((0, 2)));
    assert_eq!(group_endpoints(&vec![1], &olds, &news), None, "a single edit is left alone");
    let missing = vec![Some(s("a")), None, Some(s("abc")), Some(s("ab"))];
    assert_eq!(group_endpoints(&vec![0, 1, 3], &missing, &news), None, "an edit without a from");
    // Two separate chains: two bases, so nothing converges.
    assert_eq!(group_endpoints(&vec![0, 1], &olds, &news), None);
}

#[test]
fn merge_plan_rebases_only_converging_groups() {
    let keys = vec![Some(1), Some(2), Some(1), None, Some(1), Some(2)];
    let olds = vec![Some(s("ab")), Some(s("x")), Some(s("a")), Some(s("q")), Some(s("abc")), Some(s("z"))];
    let news = vec![Some(s("abc")), Some(s("y")), Some(s("ab")), Some(s("r")), Some(s("abcd")), Some(s("w"))];
    // Key 1 chains "a" -> "ab" -> "abc" -> "abcd" (edits 2, 0, 4); key 2 has two
    // unrelated edits; edit 3 shares nothing.
    assert_eq!(merge_plan(&keys, &olds, &news), vec![(1, 2, 4)]);
    let none: Vec<Option<String>> = vec![None, None];
    assert!(merge_plan(&vec![Some(5), Some(5)], &none, &none).is_empty());
}

#[test]
fn each_edit_of_a_converging_group_gets_the_common_endpoints_once() {
    let keys = vec![Some(1), Some(2), Some(1), None, Some(1), Some(2)];
    let plan = vec![(1, 2, 4)];
    assert_eq!(
        rebase_targets(&keys, &plan),
        vec![Some((2, 4)), None, Some((2, 4)), None, Some((2, 4)), None]
    );
}

#[test]
fn chain_endpoints_do_not_depend_on_edit_order() {
    let olds = vec![s("ab"), s("a"), s("abc")];
    let news = vec![s("abc"), s("ab"), s("abcd")];
    let (b, f) = chain_endpoints(&olds, &news).unwrap();
    let olds2 = vec![s("abc"), s("ab"), s("a")];
    let news2 = vec![s("abcd"), s("abc"), s("ab")];
    let (b2, f2) = chain_endpoints(&olds2, &news2).unwrap();
    assert_eq!((olds[b].as_str(), news[f].as_str()), ("a", "abcd"));
    assert_eq!((olds2[b2].as_str(), news2[f2].as_str()), ("a", "abcd"));
}

#[test]
fn merge_plan_gives_the_same_endpoints_in_any_order() {
    let keys = vec![Some(1), Some(1), Some(1)];
    let olds = vec![Some(s("ab")), Some(s("a")), Some(s("abc"))];
    let news = vec![Some(s("abc")), Some(s("ab")), Some(s("abcd"))];
    let plan = merge_plan(&keys, &olds, &news);
    let (_, b, f) = plan[0];
    // The same edits listed the other way round.
    let olds2: Vec<Option<String>> = olds.iter().rev().cloned().collect();
    let news2: Vec<Option<String>> = news.iter().rev().cloned().collect();
    let plan2 = merge_plan(&keys, &olds2, &news2);
    let (_, b2, f2) = plan2[0];
    assert_eq!(olds[b], olds2[b2]);
    assert_eq!(news[f], news2[f2]);
    assert_eq!((olds[b].as_deref(), news[f].as_deref()), (Some("a"), Some("abcd")));
}
