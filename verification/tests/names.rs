use vm_rust::host_text::apply;
use vm_rust::member_names::{is_blanked, is_text_entry};

fn list(names: &[&str]) -> Vec<String> {
    names.iter().map(|s| s.to_string()).collect()
}

#[test]
fn blanked_lookup_ignores_case() {
    let blanked = list(&["score text", "title"]);
    assert!(is_blanked(&blanked, "Score Text"));
    assert!(is_blanked(&blanked, "TITLE"));
    assert!(!is_blanked(&blanked, "titles"));
    assert!(!is_blanked(&blanked, ""));
    let mixed = list(&["Intro"]);
    assert!(is_blanked(&mixed, "intro"));
    assert!(is_blanked(&mixed, "INTRO"));
}

#[test]
fn empty_name_is_never_declared() {
    let entries = list(&[""]);
    assert!(!is_text_entry(&entries, ""));
    let entries = list(&["Name Field"]);
    assert!(is_text_entry(&entries, "name field"));
    assert!(is_text_entry(&entries, "NAME FIELD"));
    assert!(is_text_entry(&entries, "Name Field"));
    assert!(!is_text_entry(&entries, "Name"));
}

#[test]
fn corrections_match_whole_strings_only() {
    let rules = vec![
        ("Recieve".to_string(), "Receive".to_string()),
        ("teh".to_string(), "the".to_string()),
        ("teh".to_string(), "THE".to_string()),
    ];
    assert_eq!(apply(&rules, "Recieve"), Some("Receive".to_string()));
    assert_eq!(apply(&rules, "teh"), Some("the".to_string()), "the first rule wins");
    assert_eq!(apply(&rules, "Recieve it"), Some("Recieve it".to_string()), "the input comes back unchanged");
    assert_eq!(apply(&rules, "recieve"), Some("recieve".to_string()));
    assert_eq!(apply(&Vec::new(), "teh cat"), Some("teh cat".to_string()));
}
