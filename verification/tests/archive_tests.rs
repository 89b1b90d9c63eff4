use std::io::{Cursor, Read, Write};

use zip::write::SimpleFileOptions;
use zip::{CompressionMethod, ZipArchive, ZipWriter};
use zipcompose::compose::{plan, Compression, EntryOptions};
use zipcompose::manifest::{
    Archive, FileMapping, FileMappingInput, FilesWithDestination, Manifest,
};

/// Reads a manifest from YAML: the archives by name, each with its file name
/// and its entries.
fn manifest_of(yaml: &str) -> Manifest {
    let node: serde_yml::Value = serde_yml::from_str(yaml).unwrap();
    let mut manifest = Manifest::new();
    for (name, spec) in node.get("archives").unwrap().as_mapping().unwrap().iter() {
        let mut entries = Vec::new();
        for entry in spec.get("entries").unwrap().as_sequence().unwrap() {
            let mut files = Vec::new();
            for file in entry.get("files").unwrap().as_sequence().unwrap() {
                let src = file.get("src").and_then(|v| v.as_str());
                let dest = file.get("dest").and_then(|v| v.as_str());
                let input = match (src, dest) {
                    (Some(src), Some(dest)) => FileMappingInput::Detailed {
                        src: src.to_string(),
                        dest: dest.to_string(),
                    },
                    _ => FileMappingInput::Simple(file.as_str().unwrap().to_string()),
                };
                files.push(FileMapping::resolve(input));
            }
            entries.push(FilesWithDestination {
                dest_dir: entry.get("dest_dir").unwrap().as_str().unwrap().to_string(),
                files,
            });
        }
        let archive = Archive {
            filename: spec.get("filename").unwrap().as_str().unwrap().to_string(),
            entries,
        };
        manifest.insert(name.to_string(), archive);
    }
    manifest
}

/// What the file at `source` is taken to hold.
fn content_of(source: &str) -> Vec<u8> {
    let mut bytes = b"content of ".to_vec();
    bytes.extend_from_slice(source.as_bytes());
    bytes.push(0);
    bytes.push(0xff);
    bytes
}

fn file_options(options: EntryOptions) -> SimpleFileOptions {
    let method = match options.compression {
        Compression::Stored => CompressionMethod::Stored,
    };
    SimpleFileOptions::default()
        .compression_method(method)
        .unix_permissions(options.unix_mode)
}

/// Builds the archive in memory as its plan says.
fn build(archive: &Archive) -> ZipArchive<Cursor<Vec<u8>>> {
    let planned = plan(archive).unwrap();
    let mut zip = ZipWriter::new(Cursor::new(Vec::new()));
    for placement in &planned.placements {
        zip.start_file(placement.path.as_str(), file_options(placement.options))
            .unwrap();
        zip.write_all(&content_of(&placement.source)).unwrap();
    }
    let written = zip.finish().unwrap();
    ZipArchive::new(Cursor::new(written.into_inner())).unwrap()
}

fn bytes_at(zip: &mut ZipArchive<Cursor<Vec<u8>>>, path: &str) -> Vec<u8> {
    let mut file = zip.by_name(path).unwrap();
    let mut bytes = Vec::new();
    file.read_to_end(&mut bytes).unwrap();
    bytes
}

#[test]
fn test_run() {
    let contents = "
archives:
  test:
    filename: test.zip
    entries:
      - dest_dir: .
        files:
        - README.md

      - dest_dir: ./rs
        files:
        - ./src/main.rs
        - src: ./src/command.rs
          dest: renamed.rs

      - dest_dir: ./rs/cargo
        files:
        - Cargo.toml
        - Cargo.lock
        ";
    let manifest = manifest_of(contents);
    let mut zip = build(manifest.archive("test"));
    assert_eq!(5, zip.len());
    assert!(zip.index_for_path("README.md").is_some());
    assert!(zip.index_for_path("rs/main.rs").is_some());
    assert!(zip.index_for_path("rs/renamed.rs").is_some());
    assert!(zip.index_for_path("rs/cargo/Cargo.toml").is_some());
    assert!(zip.index_for_path("rs/cargo/Cargo.lock").is_some());
    assert_eq!(bytes_at(&mut zip, "README.md"), content_of("README.md"));
    assert_eq!(bytes_at(&mut zip, "rs/main.rs"), content_of("./src/main.rs"));
    assert_eq!(bytes_at(&mut zip, "rs/renamed.rs"), content_of("./src/command.rs"));
    assert_eq!(bytes_at(&mut zip, "rs/cargo/Cargo.toml"), content_of("Cargo.toml"));
    assert_eq!(bytes_at(&mut zip, "rs/cargo/Cargo.lock"), content_of("Cargo.lock"));
}

#[test]
fn archive_keeps_the_order_of_the_plan() {
    let manifest = manifest_of(
        "
archives:
  test:
    filename: test.zip
    entries:
      - dest_dir: ./b
        files:
        - z.txt
        - a.txt
      - dest_dir: a
        files:
        - m.txt
        ",
    );
    let zip = build(manifest.archive("test"));
    let names: Vec<String> = zip
        .file_names()
        .map(|n| n.unwrap().into_owned())
        .collect();
    assert_eq!(names, vec!["b/z.txt", "b/a.txt", "a/m.txt"]);
}

#[test]
fn renamed_source_is_the_one_file_of_its_archive() {
    let archive = Archive {
        filename: "out.zip".to_string(),
        entries: vec![FilesWithDestination {
            dest_dir: "./docs".to_string(),
            files: vec![FileMapping::SourceWithDestination {
                src: "build/index.html".to_string(),
                dest: "site/start.html".to_string(),
            }],
        }],
    };
    let mut zip = build(&archive);
    assert_eq!(1, zip.len());
    assert_eq!(bytes_at(&mut zip, "docs/start.html"), content_of("build/index.html"));
}

#[test]
fn files_are_stored_with_mode_644() {
    let archive = Archive {
        filename: "out.zip".to_string(),
        entries: vec![FilesWithDestination {
            dest_dir: ".".to_string(),
            files: vec![FileMapping::Source("README.md".to_string())],
        }],
    };
    let mut zip = build(&archive);
    let file = zip.by_name("README.md").unwrap();
    assert_eq!(file.compression(), CompressionMethod::Stored);
    assert_eq!(file.unix_mode().map(|m| m & 0o777), Some(0o644));
    assert_eq!(file.size(), content_of("README.md").len() as u64);
}
