use git_vdb::caos::{
    check_start, chunk_id, chunk_text, chunks, decimal, excluded_directory, hit_path, normal_components,
    selected_file, soften_report, source_text, StartError, DEFAULT_CHUNK_CHARS, MAX_FILE_BYTES,
};
use sha2::{Digest, Sha256};

#[test]
fn chunks_preserve_unicode_and_line_spans() {
    let input = "alpha\nβeta\nlast";
    let result = chunks(input, 6).unwrap();
    assert_eq!(
        result.iter().map(|x| x.text.as_str()).collect::<String>(),
        input
    );
    assert_eq!((result[0].start_line, result[0].end_line), (1, 1));
    assert_eq!((result[1].start_line, result[1].end_line), (2, 3));
    assert_eq!((result[2].start_line, result[2].end_line), (3, 3));
    assert!(chunks("", 12).unwrap().is_empty());
    assert!(chunks(" \n\t", 12).unwrap().is_empty());
    assert!(chunks(input, 0).is_err());
}

#[test]
fn chunk_sizes_outside_the_allowed_range_are_rejected() {
    assert!(chunks("text", 0).is_err());
    assert!(chunks("text", 16385).is_err());
    assert!(chunks("text", 16384).is_ok());
    assert!(chunks("text", 1).is_ok());
}

#[test]
fn long_lines_are_split_by_character_count() {
    let result = chunks("abcdefg", 3).unwrap();
    let texts: Vec<&str> = result.iter().map(|c| c.text.as_str()).collect();
    assert_eq!(texts, vec!["abc", "def", "g"]);
    assert!(result.iter().all(|c| c.start_line == 1 && c.end_line == 1));
}

#[test]
fn pieces_close_after_twenty_four_lines() {
    let input = "x\n".repeat(30);
    let result = chunks(&input, DEFAULT_CHUNK_CHARS).unwrap();
    assert_eq!(result.len(), 2);
    assert_eq!((result[0].start_line, result[0].end_line), (1, 24));
    assert_eq!((result[1].start_line, result[1].end_line), (25, 30));
    assert_eq!(
        result.iter().map(|x| x.text.as_str()).collect::<String>(),
        input
    );
}

#[test]
fn blank_pieces_are_dropped_but_text_is_not_rewritten() {
    let result = chunks("ab   \n  cd", 3).unwrap();
    let texts: Vec<&str> = result.iter().map(|c| c.text.as_str()).collect();
    assert_eq!(texts, vec!["ab ", "  c", "d"]);
    assert_eq!((result[1].start_line, result[1].end_line), (2, 2));
    assert_eq!((result[2].start_line, result[2].end_line), (2, 2));
}

#[test]
fn excluded_directories_are_metadata_and_build_output() {
    for name in [".git", ".caos", "target", "node_modules", "__pycache__", "vendor", "dist", "build"] {
        assert!(excluded_directory(name), "{name}");
    }
    for name in ["src", "git", "targets", ".github", ""] {
        assert!(!excluded_directory(name), "{name}");
    }
}

#[test]
fn selected_files_follow_names_and_extensions() {
    assert!(selected_file("src/main.rs"));
    assert!(selected_file("Dockerfile"));
    assert!(selected_file("docs/guide.md"));
    assert!(selected_file("a/b/LICENSE"));
    assert!(selected_file("src/lib.rs/"));
    assert!(selected_file("./notes.txt"));
    assert!(!selected_file(".rs"));
    assert!(!selected_file("image.png"));
    assert!(!selected_file("Makefile.bak"));
    assert!(!selected_file("src/.."));
    assert!(!selected_file(""));
    assert!(!selected_file("archive.tar.gz"));
}

#[test]
fn limits_match_the_documented_values() {
    assert_eq!(MAX_FILE_BYTES, 256 * 1024);
    assert_eq!(DEFAULT_CHUNK_CHARS, 1200);
}

#[test]
fn word_chunks_pack_greedily() {
    assert_eq!(chunk_text("  alpha beta\tgamma\n delta ", 11), vec!["alpha beta", "gamma delta"]);
    assert_eq!(chunk_text("one two three", 3), vec!["one", "two", "three"]);
    assert_eq!(chunk_text("supercalifragilistic is long", 5), vec!["supercalifragilistic", "is", "long"]);
    assert!(chunk_text(" \n\t ", 10).is_empty());
    assert_eq!(chunk_text("a b c", 100), vec!["a b c"]);
}

#[test]
fn start_arguments_take_their_defaults() {
    let args = check_start(Some("find the parser"), None, None, None).unwrap();
    assert_eq!(args.query, "find the parser");
    assert_eq!(args.limit, 10);
    assert_eq!(args.chunk_chars, 1200);
    assert_eq!(args.scope, ".");
}

#[test]
fn start_arguments_are_checked_in_order() {
    assert_eq!(check_start(None, None, None, None), Err(StartError::Query));
    assert_eq!(check_start(Some("  \n"), None, None, None), Err(StartError::Query));
    let long = "x".repeat(16385);
    assert_eq!(check_start(Some(&long), Some("0"), None, None), Err(StartError::Query));
    assert_eq!(check_start(Some("q"), Some("0"), Some("0"), None), Err(StartError::Limit));
    assert_eq!(check_start(Some("q"), Some("101"), None, None), Err(StartError::Limit));
    assert_eq!(check_start(Some("q"), Some("+7"), None, None).map(|a| a.limit), Ok(7));
    assert_eq!(check_start(Some("q"), Some("ten"), None, None), Err(StartError::Limit));
    assert_eq!(check_start(Some("q"), None, Some("16385"), Some("..")), Err(StartError::ChunkChars));
    assert_eq!(check_start(Some("q"), None, Some("16384"), None).map(|a| a.chunk_chars), Ok(16384));
}

#[test]
fn start_scopes_must_be_plain_relative_paths() {
    let scope = |s: &str| check_start(Some("q"), None, None, Some(s)).map(|a| a.scope);
    assert_eq!(scope("."), Ok(".".to_string()));
    assert_eq!(scope("src/lib"), Ok("src/lib".to_string()));
    assert_eq!(scope("src/./lib/"), Ok("src/./lib/".to_string()));
    assert_eq!(scope(""), Err(StartError::Path));
    assert_eq!(scope("/etc"), Err(StartError::Path));
    assert_eq!(scope("./src"), Err(StartError::Path));
    assert_eq!(scope("src/../etc"), Err(StartError::Path));
    assert_eq!(scope(".."), Err(StartError::Path));
    assert_eq!(scope("src/target/x"), Err(StartError::Excluded));
    assert_eq!(scope(".git"), Err(StartError::Excluded));
    assert_eq!(scope("src/targets"), Ok("src/targets".to_string()));
}

#[test]
fn start_refusals_carry_their_messages() {
    assert_eq!(StartError::Limit.message(), "limit must be between 1 and 100");
    assert_eq!(
        StartError::Path.message(),
        "path must be a relative source path without parent traversal"
    );
}

#[test]
fn object_paths_name_their_plain_components() {
    let names = |p: &str| normal_components(p);
    assert_eq!(names("points/ids/000.bin"), Some(vec!["points".to_string(), "ids".into(), "000.bin".into()]));
    assert_eq!(names("a//b/./c/"), Some(vec!["a".to_string(), "b".into(), "c".into()]));
    assert_eq!(names(""), Some(vec![]));
    assert_eq!(names("/etc/passwd"), None);
    assert_eq!(names("./meta.json"), None);
    assert_eq!(names("points/../meta.json"), None);
    assert_eq!(names(".hidden/x"), Some(vec![".hidden".to_string(), "x".into()]));
}

#[test]
fn chunk_ids_digest_the_path_and_the_chunk_number() {
    let expected = hex::encode(Sha256::digest("src/lib.rs\u{0}12".as_bytes()));
    assert_eq!(chunk_id("src/lib.rs", 12), expected);
    assert_ne!(chunk_id("src/lib.rs", 1), chunk_id("src/lib.rs1", 0));
    assert_eq!(decimal(0), "0");
    assert_eq!(decimal(1200), "1200");
    assert_eq!(decimal(usize::MAX), usize::MAX.to_string());
}

#[test]
fn only_small_utf8_text_files_are_indexed() {
    assert_eq!(source_text(b"fn main() {}\n".to_vec()).as_deref(), Some("fn main() {}\n"));
    assert_eq!(source_text(vec![b'a', 0, b'b']), None);
    assert_eq!(source_text(vec![0xff, 0xfe]), None);
    assert_eq!(source_text(vec![b'a'; MAX_FILE_BYTES]).map(|t| t.len()), Some(MAX_FILE_BYTES));
    assert_eq!(source_text(vec![b'a'; MAX_FILE_BYTES + 1]), None);
}

#[test]
fn hit_paths_are_relative_to_the_whole_source() {
    assert_eq!(hit_path(".", "src/lib.rs"), "src/lib.rs");
    assert_eq!(hit_path("crates/core", "src/lib.rs"), "crates/core/src/lib.rs");
    assert_eq!(hit_path("README.md", ""), "README.md");
}

#[test]
fn reports_never_carry_the_failure_marker() {
    assert_eq!(soften_report("1. a.rs:1-2\nassert FAILED here\n"), "1. a.rs:1-2\nassert Failed here\n");
    assert_eq!(soften_report("FAILEDFAILED"), "FailedFailed");
    assert_eq!(soften_report("FAILE"), "FAILE");
    assert_eq!(soften_report(""), "");
}

#[test]
fn unicode_white_space_separates_words() {
    assert_eq!(git_vdb::caos::chunk_text("a\u{3000}b\u{2028}c", 100), vec!["a b c"]);
    assert_eq!(git_vdb::caos::chunk_text("a\u{200B}b", 100), vec!["a\u{200B}b"]);
    assert!(git_vdb::unicode::char_is_whitespace('\u{85}'));
    assert!(!git_vdb::unicode::char_is_whitespace('\u{180E}'));
}
