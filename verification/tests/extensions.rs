use linecount::ext::{is_text_ext, is_valid_ext, FILE_EXT_LIST};
use linecount::process::{checked_process_file, process_file};

#[test]
fn extension_case_does_not_matter() {
    assert!(is_valid_ext("a.TXT"));
    assert!(is_valid_ext("a.txt"));
    assert!(is_valid_ext("a.Txt"));
    assert!(is_valid_ext("README.Md"));
}

#[test]
fn unlisted_or_missing_extension_is_rejected() {
    assert!(!is_valid_ext("a.exe"));
    assert!(!is_valid_ext("a"));
    assert!(!is_valid_ext("Makefile"));
    assert!(!is_valid_ext(""));
    assert!(!is_valid_ext("a."));
    assert!(!is_valid_ext(".txt"));
    assert!(!is_valid_ext("txt"));
}

#[test]
fn only_the_last_extension_of_the_file_name_counts() {
    assert!(is_valid_ext("archive.tar.json"));
    assert!(!is_valid_ext("notes.txt.bak"));
    assert!(is_valid_ext("dir/sub/c.md"));
    assert!(!is_valid_ext("dir.txt/file"));
    assert!(is_valid_ext("dir.d/file.RS"));
    assert!(is_valid_ext(".hidden.toml"));
}

#[test]
fn extension_must_match_whole() {
    assert!(!is_text_ext("tx"));
    assert!(!is_text_ext("txtx"));
    assert!(!is_text_ext("xtxt"));
    assert!(!is_text_ext(""));
    assert!(!is_text_ext("t xt"));
    assert!(!is_text_ext("m"));
    assert!(!is_text_ext("cp"));
    assert!(!is_text_ext("jsonl"));
    assert!(!is_text_ext("\u{212a}t"));
}

#[test]
fn every_listed_extension_is_accepted_in_any_case() {
    assert_eq!(FILE_EXT_LIST.len(), 41);
    for ext in FILE_EXT_LIST.iter() {
        assert!(is_text_ext(ext));
        assert!(is_text_ext(&ext.to_uppercase()));
        assert!(is_valid_ext(&format!("name.{}", ext)));
        assert!(is_valid_ext(&format!("name.{}", ext.to_uppercase())));
        assert!(!is_text_ext(&format!("{}_", ext)));
    }
    for ext in ["txt", "text", "md", "markdown", "log", "rs", "py", "js", "ts", "java", "c", "cpp",
        "h", "hpp", "go", "rb", "php", "swift", "kt", "scala", "r", "html", "htm", "css", "scss",
        "sass", "less", "xml", "svg", "json", "yaml", "yml", "toml", "ini", "csv", "tsv", "sql",
        "sh", "bash", "conf", "config"]
    {
        assert!(is_text_ext(ext));
    }
}

#[test]
fn only_ascii_capitals_are_lowered() {
    assert!(!is_text_ext("\u{ff34}xt"));
    assert!(!is_text_ext("MÐ"));
    assert!(is_text_ext("YAML"));
    assert!(is_text_ext("yAmL"));
}

#[test]
fn rejected_file_adds_nothing() {
    assert_eq!(process_file("a.exe", Some(b"x\ny\n"), 8192, false), 0);
    assert_eq!(process_file("a", Some(b"x\ny\n"), 8192, false), 0);
    assert_eq!(process_file("a.exe", Some(b"x\ny\n"), 8192, true), 0);
    assert_eq!(process_file("a.TXT", Some(b"x\ny\n"), 8192, false), 2);
}

#[test]
fn file_that_cannot_be_opened_adds_nothing() {
    assert_eq!(process_file("a.txt", None, 8192, false), 0);
    assert_eq!(process_file("a.txt", None, 8192, true), 0);
}

#[test]
fn accepted_file_adds_its_count_in_the_chosen_mode() {
    assert_eq!(process_file("a.txt", Some(b"x\n\ny"), 8192, false), 2);
    assert_eq!(process_file("a.txt", Some(b"x\n\ny"), 8192, true), 2);
    assert_eq!(process_file("a.txt", Some(b"x\n\n\ny\n"), 8192, false), 4);
    assert_eq!(process_file("a.txt", Some(b"x\n\n\ny\n"), 3, true), 2);
    assert_eq!(process_file("a.txt", Some(b""), 8192, true), 0);
    assert_eq!(process_file("a.txt", Some(b"x\ny\n"), 0, false), 0);
}

#[test]
fn checked_form_adds_the_same() {
    assert_eq!(checked_process_file("a.exe", Some(b"x\ny\n"), 8192, false), Some(0));
    assert_eq!(checked_process_file("a", Some(b"x\ny\n"), 8192, true), Some(0));
    assert_eq!(checked_process_file("a.txt", None, 8192, false), Some(0));
    assert_eq!(checked_process_file("a.TXT", Some(b"x\n\ny"), 8192, false), Some(2));
    assert_eq!(checked_process_file("a.TXT", Some(b"x\n\ny"), 8192, true), Some(2));
    assert_eq!(checked_process_file("a.md", Some(b"x\n\n\ny\n"), 2, true), Some(2));
    assert_eq!(checked_process_file("a.md", Some(b"x\n\n\ny\n"), 0, false), Some(0));
}

#[test]
fn file_adds_the_same_for_any_buffer() {
    let text = b"one\n\n  two \r\n\t\nthree";
    for skip_empty in [false, true] {
        let small = process_file("notes.txt", Some(text), 1024, skip_empty);
        let large = process_file("notes.txt", Some(text), 65536, skip_empty);
        assert_eq!(small, large);
        for size in [1usize, 2, 3, 7] {
            assert_eq!(process_file("notes.txt", Some(text), size, skip_empty), small);
        }
    }
    assert_eq!(process_file("notes.txt", Some(text), 1024, false), 4);
    assert_eq!(process_file("notes.txt", Some(text), 1024, true), 3);
}
