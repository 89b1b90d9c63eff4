use zipcompose::manifest::{Archive, FileMapping, FilesWithDestination, Manifest};
use zipcompose::validate::{
    check, check_against, check_all, check_all_against, check_archive, decide, is_listed,
    probes_of, Probe, ValidationError,
};

fn source(path: &str) -> FileMapping {
    FileMapping::Source(path.to_string())
}

fn renamed(src: &str, dest: &str) -> FileMapping {
    FileMapping::SourceWithDestination {
        src: src.to_string(),
        dest: dest.to_string(),
    }
}

fn glob(pattern: &str) -> FileMapping {
    FileMapping::Glob(pattern.to_string())
}

fn archive(filename: &str, entries: Vec<(&str, Vec<FileMapping>)>) -> Archive {
    Archive {
        filename: filename.to_string(),
        entries: entries
            .into_iter()
            .map(|(dest_dir, files)| FilesWithDestination {
                dest_dir: dest_dir.to_string(),
                files,
            })
            .collect(),
    }
}

fn listing(paths: &[&str]) -> Vec<String> {
    paths.iter().map(|p| p.to_string()).collect()
}

fn example() -> Archive {
    archive(
        "out/test.zip",
        vec![
            (".", vec![source("README.md")]),
            (
                "./rs",
                vec![source("./src/main.rs"), renamed("./src/command.rs", "renamed.rs")],
            ),
        ],
    )
}

#[test]
fn check_not_found_output_dir() {
    let name = String::from("test");
    let mut manifest = Manifest::new();
    let archive = Archive {
        filename: "/dir/not/found/test.zip".to_string(),
        entries: Vec::new(),
    };
    manifest.insert(name.clone(), archive);
    assert!(check(&manifest, name.as_str())
        .is_err_and(|e| e.kind() == std::io::ErrorKind::NotFound));
}

#[test]
fn check_not_found_source() {
    let name = "test".to_string();
    let mut manifest = Manifest::new();
    let archive = Archive {
        filename: "test.zip".to_string(),
        entries: vec![FilesWithDestination {
            dest_dir: "".to_string(),
            files: vec![FileMapping::Source("src/not/found".to_string())],
        }],
    };
    manifest.insert(name.clone(), archive);
    assert!(check(&manifest, name.as_str())
        .is_err_and(|e| e.kind() == std::io::ErrorKind::NotFound));
}

#[test]
fn check_tells_the_missing_directory_from_the_missing_source() {
    let a = archive("/dir/not/found/test.zip", vec![("", vec![source("src/not/found")])]);
    assert_eq!(check_archive(&a), Err(ValidationError::OutputDirectoryMissing));
    let a = archive("test.zip", vec![("", vec![source("src/not/found")])]);
    assert_eq!(check_archive(&a), Err(ValidationError::SourceMissing));
}

#[test]
fn check_succeeds_where_nothing_is_probed() {
    assert_eq!(check_archive(&archive("test.zip", Vec::new())), Ok(()));
    assert_eq!(check_archive(&archive("", Vec::new())), Ok(()));
    assert_eq!(check_archive(&archive("test.zip", vec![(".", Vec::new())])), Ok(()));
}

#[test]
fn check_succeeds_on_what_the_disk_holds() {
    let a = archive("./test.zip", vec![(".", vec![source("."), renamed("/", "root")])]);
    assert_eq!(check_archive(&a), Ok(()));
}

#[test]
fn check_never_takes_a_glob_as_valid() {
    let a = archive("test.zip", vec![(".", vec![source("."), glob("src/*.rs")])]);
    assert_eq!(check_archive(&a), Err(ValidationError::GlobUnsupported));
    assert!(check_archive(&a).is_err_and(|e| e.kind() == std::io::ErrorKind::Unsupported));
}

#[test]
fn check_stops_at_a_missing_source_before_a_glob() {
    let a = archive("test.zip", vec![(".", vec![source("src/not/found"), glob("src/*.rs")])]);
    assert_eq!(check_archive(&a), Err(ValidationError::SourceMissing));
}

#[test]
fn check_all_of_an_empty_manifest_succeeds() {
    assert_eq!(check_all(&Manifest::new()), Ok(()));
}

#[test]
fn check_all_stops_at_the_first_archive_that_fails() {
    let mut m = Manifest::new();
    m.insert("fine".to_string(), archive("fine.zip", vec![(".", vec![source(".")])]));
    m.insert("source".to_string(), archive("s.zip", vec![(".", vec![source("src/not/found")])]));
    m.insert("dir".to_string(), archive("/dir/not/found/d.zip", Vec::new()));
    assert_eq!(check_all(&m), Err(ValidationError::SourceMissing));
    let mut m = Manifest::new();
    m.insert("dir".to_string(), archive("/dir/not/found/d.zip", Vec::new()));
    m.insert("source".to_string(), archive("s.zip", vec![(".", vec![source("src/not/found")])]));
    assert_eq!(check_all(&m), Err(ValidationError::OutputDirectoryMissing));
}

#[test]
fn check_all_succeeds_on_what_the_disk_holds() {
    let mut m = Manifest::new();
    m.insert("a".to_string(), archive("a.zip", vec![(".", vec![source(".")])]));
    m.insert("b".to_string(), archive("./b.zip", vec![("x", vec![renamed("/", "root")])]));
    assert_eq!(check_all(&m), Ok(()));
}

#[test]
fn error_kinds_and_messages() {
    assert_eq!(
        ValidationError::OutputDirectoryMissing.kind(),
        std::io::ErrorKind::NotFound
    );
    assert_eq!(ValidationError::SourceMissing.kind(), std::io::ErrorKind::NotFound);
    assert_eq!(ValidationError::GlobUnsupported.kind(), std::io::ErrorKind::Unsupported);
    assert_eq!(
        ValidationError::OutputDirectoryMissing.message(),
        "The output directory does not exist"
    );
    assert_eq!(ValidationError::SourceMissing.message(), "The source does not exist");
    assert_eq!(ValidationError::GlobUnsupported.message(), "Glob patterns are not supported");
}

#[test]
fn probes_are_the_output_directory_and_then_the_sources() {
    assert_eq!(
        probes_of(&example()),
        vec![
            Probe::OutputDir("out".to_string()),
            Probe::Source("README.md".to_string()),
            Probe::Source("./src/main.rs".to_string()),
            Probe::Source("./src/command.rs".to_string()),
        ]
    );
}

#[test]
fn probes_leave_out_an_empty_output_directory() {
    let a = archive("test.zip", vec![(".", vec![source("a"), glob("b*")])]);
    assert_eq!(
        probes_of(&a),
        vec![Probe::Source("a".to_string()), Probe::Glob("b*".to_string())]
    );
    assert_eq!(probes_of(&archive("/", Vec::new())), Vec::new());
    assert_eq!(
        probes_of(&archive("/test.zip", Vec::new())),
        vec![Probe::OutputDir("/".to_string())]
    );
    assert_eq!(
        probes_of(&archive("./test.zip", Vec::new())),
        vec![Probe::OutputDir(".".to_string())]
    );
}

#[test]
fn probe_path_and_judgement() {
    let dir = Probe::OutputDir("out".to_string());
    let src = Probe::Source("a.txt".to_string());
    let pattern = Probe::Glob("*.txt".to_string());
    assert_eq!(dir.path(), "out");
    assert_eq!(src.path(), "a.txt");
    assert_eq!(pattern.path(), "*.txt");
    assert_eq!(dir.judge(true), Ok(()));
    assert_eq!(dir.judge(false), Err(ValidationError::OutputDirectoryMissing));
    assert_eq!(src.judge(true), Ok(()));
    assert_eq!(src.judge(false), Err(ValidationError::SourceMissing));
    assert_eq!(pattern.judge(true), Err(ValidationError::GlobUnsupported));
    assert_eq!(pattern.judge(false), Err(ValidationError::GlobUnsupported));
}

#[test]
fn is_listed_finds_whole_paths_only() {
    let l = listing(&["out", "README.md"]);
    assert!(is_listed(&l, &"out".to_string()));
    assert!(is_listed(&l, &"README.md".to_string()));
    assert!(!is_listed(&l, &"README".to_string()));
    assert!(!is_listed(&l, &"".to_string()));
    assert!(!is_listed(&Vec::new(), &"out".to_string()));
}

#[test]
fn archive_is_valid_where_everything_is_present() {
    let l = listing(&["out", "README.md", "./src/main.rs", "./src/command.rs"]);
    assert_eq!(check_against(&example(), &l), Ok(()));
    assert_eq!(decide(&probes_of(&example()), &l), Ok(()));
}

#[test]
fn archive_is_invalid_where_a_source_is_missing() {
    let l = listing(&["out", "README.md", "./src/command.rs"]);
    assert_eq!(check_against(&example(), &l), Err(ValidationError::SourceMissing));
    let l = listing(&["out", "README.md", "./src/main.rs", "renamed.rs"]);
    assert_eq!(check_against(&example(), &l), Err(ValidationError::SourceMissing));
}

#[test]
fn archive_is_invalid_where_the_output_directory_is_missing() {
    let l = listing(&["README.md", "./src/main.rs", "./src/command.rs"]);
    assert_eq!(check_against(&example(), &l), Err(ValidationError::OutputDirectoryMissing));
    assert_eq!(check_against(&example(), &Vec::new()), Err(ValidationError::OutputDirectoryMissing));
}

#[test]
fn archive_with_a_glob_is_invalid_even_where_the_pattern_is_listed() {
    let a = archive("test.zip", vec![(".", vec![source("a"), glob("b*")])]);
    assert_eq!(check_against(&a, &listing(&["a", "b*"])), Err(ValidationError::GlobUnsupported));
    assert_eq!(check_against(&a, &listing(&["b*"])), Err(ValidationError::SourceMissing));
}

#[test]
fn manifest_is_valid_where_everything_is_present() {
    let mut m = Manifest::new();
    m.insert("test".to_string(), example());
    m.insert("docs".to_string(), archive("docs.zip", vec![("man", vec![source("doc/a.md")])]));
    let l = listing(&["doc/a.md", "out", "README.md", "./src/main.rs", "./src/command.rs"]);
    assert_eq!(check_all_against(&m, &l), Ok(()));
    assert_eq!(check_all_against(&Manifest::new(), &Vec::new()), Ok(()));
}

#[test]
fn manifest_fails_with_the_error_of_its_first_invalid_archive() {
    let mut m = Manifest::new();
    m.insert("docs".to_string(), archive("docs.zip", vec![("man", vec![source("doc/a.md")])]));
    m.insert("test".to_string(), example());
    let l = listing(&["README.md", "./src/main.rs", "./src/command.rs"]);
    assert_eq!(check_all_against(&m, &l), Err(ValidationError::SourceMissing));
    let l = listing(&["doc/a.md", "README.md", "./src/main.rs", "./src/command.rs"]);
    assert_eq!(check_all_against(&m, &l), Err(ValidationError::OutputDirectoryMissing));
}

#[test]
fn decide_follows_the_order_of_the_probes() {
    let ps = vec![
        Probe::Source("a".to_string()),
        Probe::OutputDir("d".to_string()),
        Probe::Glob("*".to_string()),
    ];
    assert_eq!(decide(&ps, &listing(&[])), Err(ValidationError::SourceMissing));
    assert_eq!(decide(&ps, &listing(&["a"])), Err(ValidationError::OutputDirectoryMissing));
    assert_eq!(decide(&ps, &listing(&["a", "d"])), Err(ValidationError::GlobUnsupported));
    assert_eq!(decide(&Vec::new(), &listing(&[])), Ok(()));
}
