use zipcompose::compose::{
    entry_options, place_under, plan, ArchivePlan, Compression, EntryOptions, Placement,
    PlanError, UNIX_MODE,
};
use zipcompose::manifest::{Archive, FileMapping, FilesWithDestination};

fn source(path: &str) -> FileMapping {
    FileMapping::Source(path.to_string())
}

fn renamed(src: &str, dest: &str) -> FileMapping {
    FileMapping::SourceWithDestination {
        src: src.to_string(),
        dest: dest.to_string(),
    }
}

fn entry(dest_dir: &str, files: Vec<FileMapping>) -> FilesWithDestination {
    FilesWithDestination {
        dest_dir: dest_dir.to_string(),
        files,
    }
}

fn stored() -> EntryOptions {
    EntryOptions {
        compression: Compression::Stored,
        unix_mode: 0o644,
    }
}

fn placed(path: &str, source: &str) -> Placement {
    Placement {
        path: path.to_string(),
        source: source.to_string(),
        options: stored(),
    }
}

#[test]
fn entry_options_are_stored_with_mode_644() {
    assert_eq!(UNIX_MODE, 420);
    assert_eq!(entry_options(), stored());
    assert_eq!(entry_options().unix_mode, 0o644);
    assert_eq!(entry_options().compression, Compression::Stored);
}

#[test]
fn plan_places_the_five_files_of_three_entries() {
    let archive = Archive {
        filename: "test.zip".to_string(),
        entries: vec![
            entry(".", vec![source("README.md")]),
            entry(
                "./rs",
                vec![
                    source("./src/main.rs"),
                    renamed("./src/command.rs", "renamed.rs"),
                ],
            ),
            entry("./rs/cargo", vec![source("Cargo.toml"), source("Cargo.lock")]),
        ],
    };
    let expected = ArchivePlan {
        output: "test.zip".to_string(),
        placements: vec![
            placed("README.md", "README.md"),
            placed("rs/main.rs", "./src/main.rs"),
            placed("rs/renamed.rs", "./src/command.rs"),
            placed("rs/cargo/Cargo.toml", "Cargo.toml"),
            placed("rs/cargo/Cargo.lock", "Cargo.lock"),
        ],
    };
    let planned = plan(&archive).unwrap();
    assert_eq!(5, planned.placements.len());
    assert_eq!(planned, expected);
}

#[test]
fn plan_of_a_single_renamed_source() {
    let archive = Archive {
        filename: "out/docs.zip".to_string(),
        entries: vec![entry("./manual", vec![renamed("build/index.html", "site/start.html")])],
    };
    let planned = plan(&archive).unwrap();
    assert_eq!(planned.output, "out/docs.zip");
    assert_eq!(planned.placements, vec![placed("manual/start.html", "build/index.html")]);
}

#[test]
fn plan_of_an_archive_without_entries_is_empty() {
    let archive = Archive {
        filename: "empty.zip".to_string(),
        entries: Vec::new(),
    };
    let planned = plan(&archive).unwrap();
    assert_eq!(planned.output, "empty.zip");
    assert!(planned.placements.is_empty());
}

#[test]
fn plan_skips_entries_without_files() {
    let archive = Archive {
        filename: "a.zip".to_string(),
        entries: vec![
            entry("x", Vec::new()),
            entry("y", vec![source("f")]),
            entry("z", Vec::new()),
        ],
    };
    assert_eq!(plan(&archive).unwrap().placements, vec![placed("y/f", "f")]);
}

#[test]
fn plan_keeps_two_files_with_one_path() {
    let archive = Archive {
        filename: "a.zip".to_string(),
        entries: vec![
            entry("./d", vec![source("one/f.txt")]),
            entry("d/", vec![source("two/f.txt")]),
        ],
    };
    assert_eq!(
        plan(&archive).unwrap().placements,
        vec![placed("d/f.txt", "one/f.txt"), placed("d/f.txt", "two/f.txt")]
    );
}

#[test]
fn plan_fails_on_a_glob() {
    let archive = Archive {
        filename: "a.zip".to_string(),
        entries: vec![entry(
            ".",
            vec![source("README.md"), FileMapping::Glob("src/*.rs".to_string())],
        )],
    };
    assert_eq!(plan(&archive), Err(PlanError::GlobUnsupported));
}

#[test]
fn plan_fails_without_a_file_name() {
    for path in ["", "/", ".", "./", "..", "src/.."] {
        let archive = Archive {
            filename: "a.zip".to_string(),
            entries: vec![entry(".", vec![source(path)])],
        };
        assert_eq!(plan(&archive), Err(PlanError::MissingFileName), "source {:?}", path);
        let archive = Archive {
            filename: "a.zip".to_string(),
            entries: vec![entry(".", vec![renamed("README.md", path)])],
        };
        assert_eq!(plan(&archive), Err(PlanError::MissingFileName), "dest {:?}", path);
    }
}

#[test]
fn plan_fails_with_the_first_error() {
    let archive = Archive {
        filename: "a.zip".to_string(),
        entries: vec![
            entry(".", vec![source("ok.txt"), source("..")]),
            entry(".", vec![FileMapping::Glob("*".to_string())]),
        ],
    };
    assert_eq!(plan(&archive), Err(PlanError::MissingFileName));
    let archive = Archive {
        filename: "a.zip".to_string(),
        entries: vec![
            entry(".", vec![FileMapping::Glob("*".to_string())]),
            entry(".", vec![source("..")]),
        ],
    };
    assert_eq!(plan(&archive), Err(PlanError::GlobUnsupported));
}

#[test]
fn place_under_names_a_source_by_its_own_name() {
    assert_eq!(
        place_under("./rs", &source("./src/main.rs")),
        Ok(placed("rs/main.rs", "./src/main.rs"))
    );
    assert_eq!(place_under("", &source("a/b/c.txt")), Ok(placed("c.txt", "a/b/c.txt")));
}

#[test]
fn place_under_names_a_renamed_source_by_the_name_of_its_destination() {
    assert_eq!(
        place_under("./rs", &renamed("./src/command.rs", "renamed.rs")),
        Ok(placed("rs/renamed.rs", "./src/command.rs"))
    );
    assert_eq!(
        place_under("lib", &renamed("a.txt", "some/dir/b.txt")),
        Ok(placed("lib/b.txt", "a.txt"))
    );
}

#[test]
fn place_under_refuses_a_glob() {
    assert_eq!(
        place_under(".", &FileMapping::Glob("src/*.rs".to_string())),
        Err(PlanError::GlobUnsupported)
    );
}

#[test]
fn place_under_the_archive_root() {
    for dest_dir in [".", "./", ""] {
        assert_eq!(
            place_under(dest_dir, &source("README.md")),
            Ok(placed("README.md", "README.md")),
            "directory {:?}",
            dest_dir
        );
    }
}
