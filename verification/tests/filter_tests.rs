use fsearch::filter::extension_of;
use fsearch::filter::file_matches;
use fsearch::filter::is_hidden;
use fsearch::filter::naive_pattern_match;

/// The original universal-wildcard property, checked over a deterministic
/// sample of ASCII strings: the pattern "*" matches every name.
#[test]
fn prop_star_matches_all_strings() {
    let mut samples: Vec<String> = vec![
        String::new(),
        " ".to_string(),
        "*".to_string(),
        "**".to_string(),
        "a".to_string(),
        "hello world".to_string(),
        ".hidden".to_string(),
        "weird/?:[]{}".to_string(),
    ];
    for len in 0..50usize {
        let s: String = (0..len).map(|i| ((i * 7 + len) % 128) as u8 as char).collect();
        samples.push(s);
    }
    for s in &samples {
        assert!(naive_pattern_match(s, "*"));
    }
}

/// The original substring-equivalence property, checked over a deterministic
/// sample: once wildcards are removed from the pattern, the match is exactly
/// the standard substring test.
#[test]
fn prop_substring_equivalent() {
    let mut samples: Vec<(String, String)> = Vec::new();
    let names = [
        "", "a", "abc", "abc-file.txt", "xyzabc", "banana", "aa*bb", ".config",
        "hello world", "ababab",
    ];
    let pats = ["", "a", "ab", "abc*", "*abc", "a*c", "nana", "zzz", "*", "**", " "];
    for n in &names {
        for p in &pats {
            samples.push((n.to_string(), p.to_string()));
        }
    }
    for i in 0..60usize {
        let s: String = (0..(i % 23)).map(|k| (b'a' + ((k * 3 + i) % 9) as u8) as char).collect();
        let p: String = (0..(i % 5)).map(|k| (b'a' + ((k + i) % 9) as u8) as char).collect();
        samples.push((s, p));
    }
    for (s, pat) in &samples {
        let pat_no_star = pat.replace('*', "");
        let direct = s.contains(&pat_no_star);
        let ours = naive_pattern_match(s, &pat_no_star);
        assert_eq!(direct, ours, "name {:?} pattern {:?}", s, pat_no_star);
    }
}

#[test]
fn test_pattern_wildcard_stripping() {
    // "abc*" matches any name containing "abc", anywhere in the name.
    assert!(naive_pattern_match("abc-file.txt", "abc*"));
    assert!(naive_pattern_match("xabc", "abc*"));
    assert!(naive_pattern_match("abcx", "*abc"));
    assert!(!naive_pattern_match("xyz-file.txt", "abc*"));
    // Wildcards anywhere in the pattern are stripped, not expanded.
    assert!(naive_pattern_match("axxbc", "a*xxb*c*"));
    assert!(!naive_pattern_match("acb", "a*b"));
}

#[test]
fn test_is_hidden_names() {
    assert!(is_hidden(".hidden.txt"));
    assert!(is_hidden("."));
    assert!(!is_hidden("visible.txt"));
    assert!(!is_hidden(""));
    assert!(!is_hidden("not.hidden"));
}

#[test]
fn test_extension_of_cases() {
    assert_eq!(extension_of("readme.md"), Some("md"));
    assert_eq!(extension_of("archive.tar.gz"), Some("gz"));
    assert_eq!(extension_of("plain"), None);
    assert_eq!(extension_of(".gitignore"), None);
    assert_eq!(extension_of(".."), None);
    assert_eq!(extension_of("trailing."), Some(""));
    assert_eq!(extension_of(".a.b"), Some("b"));
}

#[test]
fn test_file_matches_extension_filter() {
    let txt_only: Option<Vec<String>> = Some(vec!["txt".to_string()]);
    assert!(file_matches("hello.txt", "*", &txt_only));
    assert!(!file_matches("readme.md", "*", &txt_only));
    // A file with no extension never matches a configured set.
    assert!(!file_matches("makefile", "*", &txt_only));
    // Case-insensitive comparison, in both directions.
    let upper: Option<Vec<String>> = Some(vec!["TXT".to_string()]);
    assert!(file_matches("hello.txt", "*", &upper));
    assert!(file_matches("HELLO.TXT", "*", &txt_only));
    // No set configured: everything passes the extension filter.
    assert!(file_matches("anything.bin", "*", &None));
    assert!(file_matches("noext", "*", &None));
    // Both filters must pass.
    assert!(!file_matches("hello.txt", "zzz", &txt_only));
}
