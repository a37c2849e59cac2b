use codeowners::cache::Cache;
use codeowners::project::ProjectFile;
use codeowners::project_file_builder::{
    ProjectFileBuilder, build_project_file_without_cache, first_line, read_first_line, team_annotation,
};

fn build(name: &str, bytes: &[u8]) -> Option<String> {
    let line = read_first_line(&bytes.to_vec());
    build_project_file_without_cache(name, line.as_deref()).owner
}

#[test]
fn test_team_regex() {
    let list = [
        ("// @team Foo", "Foo"),
        ("// @team Foo Bar", "Foo Bar"),
        ("// @team Zoo", "Zoo"),
        ("// @team: Zoo Foo", "Zoo Foo"),
        ("# @team: Bap", "Bap"),
        ("# @team: Bap Hap", "Bap Hap"),
        ("<!-- @team: Zoink -->", "Zoink"),
        ("<!-- @team: Zoink Err -->", "Zoink Err"),
        ("<%# @team: Zap %>", "Zap"),
        ("<%# @team: Zap Zip%>", "Zap Zip"),
        ("<!-- @team Blast -->", "Blast"),
        ("<!-- @team Blast Off -->", "Blast Off"),
        // Without the @ symbol.
        ("# team: MyTeam", "MyTeam"),
        ("// team: MyTeam", "MyTeam"),
        ("<!-- team: MyTeam -->", "MyTeam"),
        ("<%# team: MyTeam %>", "MyTeam"),
    ];
    for (key, value) in list {
        assert_eq!(team_annotation(key), Some(value.to_string()));
    }
}

#[test]
fn other_comments_are_no_annotations() {
    for line in ["", "class A; end", "# a comment", "x # @team Foo", "@team Foo"] {
        assert_eq!(team_annotation(line), None, "{}", line);
    }
}

#[test]
fn test_reads_annotation_from_first_line() {
    assert_eq!(build("a.rb", b"# @team Payments\nclass A; end\n"), Some("Payments".to_string()));
}

#[test]
fn test_handles_crlf_line_endings() {
    assert_eq!(build("b.rb", b"# @team Payments\r\nclass B; end\r\n"), Some("Payments".to_string()));
}

#[test]
fn test_no_annotation_on_first_line() {
    assert_eq!(build("c.rb", b"class C; end\n# @team Payments\n"), None);
}

#[test]
fn test_empty_and_unterminated_files() {
    assert_eq!(build("d.rb", b""), None);
    // No trailing newline at all.
    assert_eq!(build("e.rb", b"# @team Payments"), Some("Payments".to_string()));
}

#[test]
fn test_invalid_utf8_after_a_valid_first_line() {
    let mut bytes = b"# @team Payments\n".to_vec();
    bytes.extend_from_slice(&[0xff, 0xfe, 0x00]);
    assert_eq!(build("f.rb", &bytes), Some("Payments".to_string()));
}

#[test]
fn test_invalid_utf8_within_the_first_line() {
    let bytes = [0xff, 0xfe, b'\n'];
    assert_eq!(build("g.rb", &bytes), None);
}

#[test]
fn a_file_that_cannot_be_read_has_no_owner() {
    let file = build_project_file_without_cache("h.rb", None);
    assert_eq!(file.path, "h.rb");
    assert_eq!(file.owner, None);
}

#[test]
fn terminators_are_not_part_of_a_line() {
    assert_eq!(first_line("# team: A\r\n"), "# team: A");
    assert_eq!(first_line("# team: A\n"), "# team: A");
    assert_eq!(first_line("# team: A"), "# team: A");
    let list: [(&[u8], &str); 5] =
        [(b"a\r\nb", "a"), (b"a\nb", "a"), (b"", ""), (b"a\r", "a\r"), (b"a\r\r\n", "a\r")];
    for (bytes, expected) in list {
        let line = read_first_line(&bytes.to_vec()).unwrap();
        assert_eq!(first_line(&line), expected);
    }
    // With a carriage return that ends no line behind it, the end of a comment is part of the name.
    assert_eq!(build("i.html", b"<!-- @team X -->\r\n"), Some("X".to_string()));
    assert_eq!(build("i.html", b"<!-- @team X -->\r"), Some("X -->".to_string()));
    assert_eq!(read_first_line(&"é\nx".as_bytes().to_vec()), Some("é\n".to_string()));
}

#[test]
fn a_builder_reads_a_file_once() {
    let mut builder = ProjectFileBuilder::new(Cache::Global(vec![]));
    assert!(builder.get_project_file_from_cache("a.rb").is_none());
    assert_eq!(builder.build("a.rb", Some("# @team Payments\n")).owner, Some("Payments".to_string()));
    // The second time the first line is not asked for.
    assert_eq!(builder.build("a.rb", None).owner, Some("Payments".to_string()));
    assert_eq!(
        builder.get_project_file_from_cache("./a.rb"),
        None,
        "a leading dot makes another path"
    );
    assert_eq!(
        builder.get_project_file_from_cache("a.rb"),
        Some(ProjectFile { path: "a.rb".to_string(), owner: Some("Payments".to_string()) })
    );
    assert_eq!(builder.into_cache().get_file_owner("a.rb").unwrap().owner, Some("Payments".to_string()));
}

#[test]
fn a_builder_without_a_cache_remembers_nothing() {
    let mut builder = ProjectFileBuilder::new(Cache::Noop);
    assert_eq!(builder.build("a.rb", Some("# @team Payments\n")).owner, Some("Payments".to_string()));
    assert!(builder.get_project_file_from_cache("a.rb").is_none());
    assert_eq!(builder.build("a.rb", None).owner, None);
}

#[test]
fn the_last_entry_counts() {
    let mut cache = Cache::Global(vec![]);
    cache.write_file_owner("a/b.rb", Some("Old".to_string()));
    cache.write_file_owner("a//b.rb", None);
    assert_eq!(cache.get_file_owner("a/b.rb").unwrap().owner, None);
    assert!(cache.get_file_owner("a/c.rb").is_none());
}
