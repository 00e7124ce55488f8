use vm_rust::dialog::{dialog_answer, mask_extensions, mask_patterns, name_matches, DialogAnswer};

#[test]
fn windows_mask_pairs() {
    let p = mask_patterns("*.MIM,*.MIM");
    assert_eq!(p, vec!["*.mim".to_string()]);
    assert!(name_matches("Rasmus.MIM", &p));
    assert!(name_matches("rasmus.mim", &p));
    assert!(!name_matches("settings.txt", &p));
    assert_eq!(mask_extensions(&p), vec!["mim".to_string()]);
}

#[test]
fn several_patterns_and_all_files() {
    let p = mask_patterns("Text,*.txt;*.log,Data,*.dat");
    assert_eq!(p, vec!["*.txt", "*.log", "*.dat"]);
    assert!(name_matches("a.LOG", &p));
    assert!(mask_patterns("All,*.*").is_empty());
}

#[test]
fn mac_type_and_empty_mask_match_everything() {
    assert!(mask_patterns("TEXT").is_empty());
    assert!(mask_patterns("").is_empty());
    assert!(name_matches("anything.bin", &mask_patterns("TEXT")));
}

#[test]
fn question_mark_glob() {
    let p = mask_patterns("*.d?r");
    assert!(name_matches("movie.dir", &p));
    assert!(name_matches("movie.dxr", &p));
    assert!(!name_matches("movie.dcrx", &p));
}

#[test]
fn lone_star_mask_filters_nothing() {
    assert!(mask_patterns("*").is_empty());
    assert!(mask_patterns("Images,*.png;*").is_empty());
    assert!(name_matches("whatever", &mask_patterns("*")));
}

#[test]
fn repeated_patterns_are_kept_once_in_order() {
    let p = mask_patterns("A,*.b;*.a, B ,  *.B ;x?y");
    assert_eq!(p, vec!["*.b", "*.a", "x?y"]);
}

#[test]
fn entries_without_pattern_characters_are_dropped() {
    let p = mask_patterns("Docs,readme;*.md");
    assert_eq!(p, vec!["*.md"]);
}

#[test]
fn lone_entry_is_taken_as_patterns() {
    let p = mask_patterns(" *.A ; *.B ");
    assert_eq!(p, vec!["*.a", "*.b"]);
}

#[test]
fn extensions_skip_wildcards_and_repeats() {
    let pats: Vec<String> = vec!["*.mim", "*.d?r", "*.", "x.txt", "*.MIM", "*.mim", "*.a.b", "*.log"]
        .into_iter()
        .map(|s| s.to_string())
        .collect();
    assert_eq!(mask_extensions(&pats), vec!["mim", "MIM", "log"]);
}

#[test]
fn no_patterns_pass_every_name() {
    let none: Vec<String> = Vec::new();
    assert!(name_matches("", &none));
    assert!(name_matches("ANY.THING", &none));
}

#[test]
fn star_matches_runs_of_any_length() {
    let p = vec!["a*b*c".to_string()];
    assert!(name_matches("abc", &p));
    assert!(name_matches("aXXbYYc", &p));
    assert!(!name_matches("aXXbYY", &p));
    let q = vec!["?".to_string()];
    assert!(name_matches("z", &q));
    assert!(!name_matches("", &q));
    assert!(!name_matches("zz", &q));
}

#[test]
fn dialog_answer_is_a_file_only_for_a_non_empty_name() {
    assert!(matches!(dialog_answer(None, None), DialogAnswer::Cancel));
    assert!(matches!(dialog_answer(Some(String::new()), Some(vec![1])), DialogAnswer::Cancel));
    match dialog_answer(Some("save.txt".to_string()), Some(vec![1, 2])) {
        DialogAnswer::File { name, bytes } => {
            assert_eq!(name, "save.txt");
            assert_eq!(bytes, Some(vec![1, 2]));
        }
        DialogAnswer::Cancel => panic!("a named file is no cancel"),
    }
    match dialog_answer(Some("remote.dat".to_string()), None) {
        DialogAnswer::File { name, bytes } => {
            assert_eq!(name, "remote.dat");
            assert_eq!(bytes, None);
        }
        DialogAnswer::Cancel => panic!("a named file is no cancel"),
    }
}
