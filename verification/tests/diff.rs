use dinamika::{diff_runs, longest_common_substring, DiffOp, MIN_COMMON_RUN};

fn diff_script(from: &str, to: &str) -> Vec<String> {
    let a: Vec<char> = from.chars().collect();
    let b: Vec<char> = to.chars().collect();
    let mut ops = Vec::new();
    diff_runs(&a, &b, 0, 0, &mut ops);
    let mut out = Vec::new();
    for op in ops {
        match op {
            DiffOp::Common { a: ai, len, .. } => {
                out.push(format!("={}", a[ai..ai + len].iter().collect::<String>()));
            }
            DiffOp::Replace { a: ai, alen, b: bi, blen } => {
                if alen > 0 {
                    out.push(format!("-{}", a[ai..ai + alen].iter().collect::<String>()));
                }
                if blen > 0 {
                    out.push(format!("+{}", b[bi..bi + blen].iter().collect::<String>()));
                }
            }
        }
    }
    out
}

#[test]
fn diff_runs_keeps_unchanged_middle_when_wrapping() {
    assert_eq!(
        diff_script("println!();", "{\n    println!();\n}"),
        vec!["+{\n    ", "=println!();", "+\n}"]
    );
}

#[test]
fn diff_runs_handles_prepend_append_and_replace() {
    assert_eq!(diff_script("bar", "foobar"), vec!["+foo", "=bar"]);
    assert_eq!(diff_script("a\nb", "a\nb\nc"), vec!["=a\nb", "+\nc"]);
    assert_eq!(diff_script("main.rs", "test.rs"), vec!["-main", "+test", "=.rs"]);
    assert_eq!(diff_script("same", "same"), vec!["=same"]);
    assert_eq!(diff_script("abc", "xyz"), vec!["-abc", "+xyz"]);
}

#[test]
fn diff_runs_ignores_coincidental_short_runs() {
    assert_eq!(
        diff_script("Привет мир!", "На дворе {age} год"),
        vec!["-Привет мир!", "+На дворе {age} год"]
    );
    assert_eq!(diff_script("ab xy", "cd ab"), vec!["-ab xy", "+cd ab"]);
    assert_eq!(
        diff_script("xxxcommonyyy", "zzcommonww"),
        vec!["-xxx", "+zz", "=common", "-yyy", "+ww"]
    );
}

#[test]
fn diff_runs_keeps_short_identical_text_as_anchor() {
    assert_eq!(diff_script("ok", "ok"), vec!["=ok"]);
    assert_eq!(diff_script(" ", " "), vec!["= "]);
}

#[test]
fn longest_common_substring_takes_first_longest() {
    let a: Vec<char> = "xxabcyyabcd".chars().collect();
    let b: Vec<char> = "abcd".chars().collect();
    assert_eq!(longest_common_substring(&a, &b), (7, 0, 4));
    let c: Vec<char> = "ab".chars().collect();
    let d: Vec<char> = "ba".chars().collect();
    // Two runs of length one: the first in `a` wins.
    assert_eq!(longest_common_substring(&c, &d), (0, 1, 1));
    let e: Vec<char> = "abc".chars().collect();
    let f: Vec<char> = "xyz".chars().collect();
    assert_eq!(longest_common_substring(&e, &f).2, 0);
}

#[test]
fn diff_runs_appends_with_offsets() {
    let a: Vec<char> = "same".chars().collect();
    let mut ops = vec![DiffOp::Replace { a: 0, alen: 1, b: 0, blen: 0 }];
    diff_runs(&a, &a, 10, 20, &mut ops);
    assert_eq!(ops.len(), 2);
    assert_eq!(ops[1], DiffOp::Common { a: 10, b: 20, len: 4 });
}

#[test]
fn diff_of_empty_texts_is_empty_replace_or_nothing() {
    let e: Vec<char> = Vec::new();
    let x: Vec<char> = "xy".chars().collect();
    assert_eq!(diff_script("", "xy"), vec!["+xy"]);
    assert_eq!(diff_script("xy", ""), vec!["-xy"]);
    let mut ops = Vec::new();
    diff_runs(&e, &x, 0, 0, &mut ops);
    assert_eq!(ops, vec![DiffOp::Replace { a: 0, alen: 0, b: 0, blen: 2 }]);
}

#[test]
fn anchor_threshold_is_three() {
    assert_eq!(MIN_COMMON_RUN, 3);
    assert_eq!(diff_script("abXcd", "abYcd"), vec!["-abXcd", "+abYcd"]);
    assert_eq!(diff_script("abcXdef", "abcYdef"), vec!["=abc", "-X", "+Y", "=def"]);
}

#[test]
fn diff_parts_rebuild_both_texts() {
    let pairs = [("println!();", "{\n    println!();\n}"), ("xxxcommonyyy", "zzcommonww"), ("abc", ""), ("", "")];
    for (from, to) in pairs {
        let a: Vec<char> = from.chars().collect();
        let b: Vec<char> = to.chars().collect();
        let mut ops = Vec::new();
        diff_runs(&a, &b, 0, 0, &mut ops);
        let mut left = String::new();
        let mut right = String::new();
        for op in ops {
            match op {
                DiffOp::Common { a: ai, b: bi, len } => {
                    assert_eq!(a[ai..ai + len], b[bi..bi + len]);
                    left.extend(&a[ai..ai + len]);
                    right.extend(&b[bi..bi + len]);
                }
                DiffOp::Replace { a: ai, alen, b: bi, blen } => {
                    left.extend(&a[ai..ai + alen]);
                    right.extend(&b[bi..bi + blen]);
                }
            }
        }
        assert_eq!(left, from);
        assert_eq!(right, to);
    }
}

#[test]
fn diff_ops_tile_both_texts_without_gaps() {
    let a: Vec<char> = "the quick brown fox jumps".chars().collect();
    let b: Vec<char> = "a quick red fox jumped over".chars().collect();
    let mut ops = Vec::new();
    diff_runs(&a, &b, 5, 9, &mut ops);
    let (mut at_a, mut at_b) = (5usize, 9usize);
    let mut last_was_replace = false;
    for op in &ops {
        match *op {
            DiffOp::Common { a: x, b: y, len } => {
                assert_eq!((x, y), (at_a, at_b));
                assert!(len > 0);
                at_a += len;
                at_b += len;
                last_was_replace = false;
            }
            DiffOp::Replace { a: x, alen, b: y, blen } => {
                assert_eq!((x, y), (at_a, at_b));
                assert!(alen + blen > 0);
                assert!(!last_was_replace, "two replacements in a row");
                at_a += alen;
                at_b += blen;
                last_was_replace = true;
            }
        }
    }
    assert_eq!((at_a, at_b), (5 + a.len(), 9 + b.len()));
}
