use gds_text::fonts::{find_family, first_occurrence, sorted_family_names};

fn names(v: &[&str]) -> Vec<String> {
    v.iter().map(|s| s.to_string()).collect()
}

#[test]
fn finds_family_ignoring_case() {
    let fams = names(&["DejaVu Sans", "Sarasa Mono SC"]);
    assert_eq!(find_family(&fams, "sarasa"), Some("Sarasa Mono SC".to_string()));
    assert_eq!(find_family(&fams, "MONO"), Some("Sarasa Mono SC".to_string()));
}

#[test]
fn first_match_wins() {
    let fams = names(&["DejaVu Sans", "Noto Sans CJK SC", "Sarasa Mono SC"]);
    assert_eq!(find_family(&fams, "SANS"), Some("DejaVu Sans".to_string()));
    assert_eq!(find_family(&fams, "sc"), Some("Noto Sans CJK SC".to_string()));
}

#[test]
fn no_match_gives_none() {
    let fams = names(&["DejaVu Sans", "Noto Serif"]);
    assert_eq!(find_family(&fams, "Sarasa"), None);
    assert_eq!(find_family(&[], "Sans"), None);
    assert_eq!(find_family(&names(&["ab"]), "abc"), None);
}

#[test]
fn empty_name_matches_first_family() {
    let fams = names(&["Zeta", "Alpha"]);
    assert_eq!(find_family(&fams, ""), Some("Zeta".to_string()));
}

#[test]
fn non_ascii_names() {
    let fams = names(&["Ärial Ünicode", "思源黑体 CN"]);
    assert_eq!(find_family(&fams, "ärial"), Some("Ärial Ünicode".to_string()));
    assert_eq!(find_family(&fams, "黑体"), Some("思源黑体 CN".to_string()));
    assert_eq!(find_family(&fams, "cn"), Some("思源黑体 CN".to_string()));
}

#[test]
fn first_occurrence_is_case_sensitive_substring_search() {
    let hay = names(&["dejavu sans", "sarasa mono sc", "Sarasa"]);
    assert_eq!(first_occurrence(&hay, "sarasa"), Some(1));
    assert_eq!(first_occurrence(&hay, "Sarasa"), Some(2));
    assert_eq!(first_occurrence(&hay, "sans"), Some(0));
    assert_eq!(first_occurrence(&hay, "serif"), None);
    assert_eq!(first_occurrence(&hay, ""), Some(0));
    assert_eq!(first_occurrence(&[], ""), None);
    assert_eq!(first_occurrence(&names(&["ab"]), "abc"), None);
}

#[test]
fn family_names_sorted_once_each() {
    let fams = names(&["Noto Sans", "DejaVu Sans", "Noto Sans", "DejaVu", "Arial", "DejaVu Sans"]);
    assert_eq!(
        sorted_family_names(&fams),
        names(&["Arial", "DejaVu", "DejaVu Sans", "Noto Sans"])
    );
}

#[test]
fn family_names_order_as_std_sorts() {
    let fams = names(&["b", "B", "文泉驿", "a", "", "ab", "é", "z", "a"]);
    let mut expected = fams.clone();
    expected.sort();
    expected.dedup();
    assert_eq!(sorted_family_names(&fams), expected);
    assert_eq!(sorted_family_names(&[]), Vec::<String>::new());
}
