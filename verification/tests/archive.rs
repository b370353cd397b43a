use std::collections::BTreeMap;
use std::io::{Cursor, Read, Write};

use append_cover_epub::error::EpubError;
use append_cover_epub::manifest::edit_manifest;
use append_cover_epub::pipeline::{advance, next_action, Action, RepackConfig, Stage};
use append_cover_epub::reader::{ArchiveReader, ExtractStep};
use append_cover_epub::codec::CONTENT_LIMIT;
use append_cover_epub::writer::{
    directory_form, is_valid_plan, plan_archive, plan_package, tree_sources, write_archive,
    ArchiveEntry, ArchiveWriter, EntryKind, TreeNode, ENTRY_PERMISSIONS, META_INF, MIMETYPE, OEBPS,
};

const EPUB_MIME: &[u8] = b"application/epub+zip";

fn file(path: &str, content: &[u8]) -> TreeNode {
    TreeNode { path: path.to_string(), is_file: true, content: content.to_vec() }
}

fn dir(path: &str) -> TreeNode {
    TreeNode { path: path.to_string(), is_file: false, content: Vec::new() }
}

fn file_entry(name: &str, content: &[u8]) -> ArchiveEntry {
    ArchiveEntry {
        name: name.to_string(),
        content: content.to_vec(),
        kind: EntryKind::File,
        permissions: 0o755,
    }
}

fn dir_entry(name: &str) -> ArchiveEntry {
    ArchiveEntry {
        name: name.to_string(),
        content: Vec::new(),
        kind: EntryKind::Directory,
        permissions: 0o755,
    }
}

fn opf() -> Vec<u8> {
    let mut text = String::new();
    text.push_str("<?xml version=\"1.0\" encoding=\"UTF-8\"?>\n");
    text.push_str("<package xmlns=\"http://www.idpf.org/2007/opf\" version=\"3.0\">\n");
    text.push_str("  <metadata>\n");
    text.push_str("    <dc:title>A Book</dc:title>\n");
    text.push_str("    <dc:language>en</dc:language>\n");
    text.push_str("    <dc:identifier>id-1</dc:identifier>\n");
    text.push_str("    <meta property=\"dcterms:modified\">2020-01-01T00:00:00Z</meta>\n");
    text.push_str("    <meta name=\"generator\" content=\"none\"/>\n");
    text.push_str("  </metadata>\n");
    text.push_str("<manifest>\n");
    text.push_str("    <item id=\"c1\" href=\"c1.xhtml\" media-type=\"application/xhtml+xml\"/>\n");
    text.push_str("</manifest>\n");
    text.push_str("</package>\n");
    text.into_bytes()
}

fn sample_nodes(root: &str) -> Vec<TreeNode> {
    vec![
        dir(&format!("{}/META-INF", root)),
        file(&format!("{}/META-INF/container.xml", root), b"<container/>"),
        dir(&format!("{}/OEBPS", root)),
        file(&format!("{}/OEBPS/book.opf", root), &opf()),
        file(&format!("{}/OEBPS/c1.xhtml", root), b"<html>chapter one, chapter one, chapter one</html>"),
        dir(&format!("{}/OEBPS/images", root)),
        file(&format!("{}/OEBPS/images/fig.bin", root), &[0u8, 1, 2, 3, 255, 254]),
    ]
}

fn sample_epub() -> Vec<u8> {
    let entries = plan_archive("tree", EPUB_MIME, &sample_nodes("tree")).unwrap();
    write_archive(&entries).unwrap()
}

fn archive_with_names(names: &[&str]) -> Vec<u8> {
    let mut zip = zip::ZipWriter::new(Cursor::new(Vec::new()));
    let options = zip::write::FileOptions::default().compression_method(zip::CompressionMethod::Stored);
    for name in names {
        zip.start_file(*name, options).unwrap();
        zip.write_all(name.as_bytes()).unwrap();
    }
    zip.finish().unwrap().into_inner()
}

/// Carries out a plan on a map from paths to contents; a directory is a
/// path that ends in a slash.
fn unpack(steps: &[ExtractStep], tree: &mut BTreeMap<String, Vec<u8>>) {
    for step in steps {
        match step {
            ExtractStep::CreateDir { path } => {
                tree.insert(path.clone(), Vec::new());
            }
            ExtractStep::WriteFile { path, parent, data } => {
                tree.entry(format!("{}/", parent)).or_insert_with(Vec::new);
                tree.insert(path.clone(), data.clone());
            }
        }
    }
}

/// Walks the map as a directory walk does: the directory `top`, then what
/// it holds, each directory before its content.
fn walk(tree: &BTreeMap<String, Vec<u8>>, top: &str) -> Vec<TreeNode> {
    let mut nodes = Vec::new();
    let prefix = format!("{}/", top);
    for (path, content) in tree {
        if path.starts_with(&prefix) {
            if path.ends_with('/') {
                nodes.push(dir(path.trim_end_matches('/')));
            } else {
                nodes.push(file(path, content));
            }
        }
    }
    nodes
}

#[test]
fn names_of_the_package_layout() {
    assert_eq!(MIMETYPE, "mimetype");
    assert_eq!(META_INF, "META-INF");
    assert_eq!(OEBPS, "OEBPS");
    assert_eq!(ENTRY_PERMISSIONS, 0o755);
}

#[test]
fn tree_sources_are_mimetype_then_the_two_directories() {
    let (mimetype, walks) = tree_sources("__extract_epub_tmp");
    assert_eq!(mimetype, "__extract_epub_tmp/mimetype");
    assert_eq!(walks, vec!["__extract_epub_tmp/META-INF", "__extract_epub_tmp/OEBPS"]);
}

#[test]
fn plan_puts_mimetype_first() {
    let entries = plan_archive("tree", EPUB_MIME, &sample_nodes("tree")).unwrap();
    assert_eq!(entries[0], file_entry("mimetype", EPUB_MIME));
    assert!(is_valid_plan(&entries));
    let entries = plan_archive("tree", b"", &Vec::new()).unwrap();
    assert_eq!(entries, vec![file_entry("mimetype", b"")]);
}

#[test]
fn plan_names_entries_relative_to_the_root() {
    let entries = plan_archive("tree", EPUB_MIME, &sample_nodes("tree")).unwrap();
    assert_eq!(
        entries,
        vec![
            file_entry("mimetype", EPUB_MIME),
            dir_entry("META-INF"),
            file_entry("META-INF/container.xml", b"<container/>"),
            dir_entry("OEBPS"),
            file_entry("OEBPS/book.opf", &opf()),
            file_entry("OEBPS/c1.xhtml", b"<html>chapter one, chapter one, chapter one</html>"),
            dir_entry("OEBPS/images"),
            file_entry("OEBPS/images/fig.bin", &[0u8, 1, 2, 3, 255, 254]),
        ]
    );
}

#[test]
fn plan_holds_the_cover_under_the_name_of_its_subtype() {
    let image: Vec<u8> = vec![0xFF, 0xD8, 0xFF, 0xE0, 9, 8, 7];
    let config = RepackConfig {
        epub: "b.epub".to_string(),
        image: "cover.jpg".to_string(),
        media: "jpeg".to_string(),
        keep_tmp: false,
    };
    let to = match next_action(Stage::ManifestEdited, &config) {
        Some(Action::CopyImage { to, .. }) => to,
        _ => panic!("no copy at this stage"),
    };
    let mut nodes = sample_nodes("__extract_epub_tmp");
    nodes.push(file(&to, &image));
    let entries = plan_archive("__extract_epub_tmp", EPUB_MIME, &nodes).unwrap();
    let covers: Vec<&ArchiveEntry> =
        entries.iter().filter(|e| e.name == "OEBPS/cover.jpeg").collect();
    assert_eq!(covers.len(), 1);
    assert_eq!(covers[0], &file_entry("OEBPS/cover.jpeg", &image));
    assert!(!entries.iter().any(|e| e.name == "OEBPS/cover.jpg"));

    let bytes = write_archive(&entries).unwrap();
    let steps = ArchiveReader::open(bytes).unwrap().extract_all("out").unwrap();
    assert!(steps.contains(&ExtractStep::WriteFile {
        path: "out/OEBPS/cover.jpeg".to_string(),
        parent: "out/OEBPS".to_string(),
        data: image,
    }));
}

#[test]
fn the_entries_do_not_depend_on_the_order_of_the_walk() {
    let nodes = sample_nodes("tree");
    let mut turned = sample_nodes("tree");
    turned.reverse();
    turned.swap(1, 4);
    let one = plan_archive("tree", EPUB_MIME, &nodes).unwrap();
    let other = plan_archive("tree", EPUB_MIME, &turned).unwrap();
    assert_eq!(one[0], other[0]);
    assert_eq!(one.len(), other.len());
    assert_ne!(one, other);
    for entry in &one {
        assert!(other.contains(entry));
    }
    for entry in &other {
        assert!(one.contains(entry));
    }
}

#[test]
fn a_walk_that_cannot_be_archived_fails_in_every_order() {
    let mut nodes = vec![dir("tree/OEBPS"), file("tree/OEBPS/a", b"1"), file("tree/OEBPS/a", b"2")];
    assert!(plan_archive("tree", EPUB_MIME, &nodes).is_err());
    nodes.reverse();
    assert!(plan_archive("tree", EPUB_MIME, &nodes).is_err());
}

#[test]
fn plan_package_puts_the_container_before_the_content() {
    let nodes = sample_nodes("tree");
    let container: Vec<TreeNode> = sample_nodes("tree").into_iter().take(2).collect();
    let content: Vec<TreeNode> = sample_nodes("tree").into_iter().skip(2).collect();
    let planned = plan_package("tree", EPUB_MIME, &container, &content).unwrap();
    assert_eq!(planned, plan_archive("tree", EPUB_MIME, &nodes).unwrap());
    let names: Vec<&str> = planned.iter().map(|e| e.name.as_str()).collect();
    assert_eq!(
        names,
        vec![
            "mimetype",
            "META-INF",
            "META-INF/container.xml",
            "OEBPS",
            "OEBPS/book.opf",
            "OEBPS/c1.xhtml",
            "OEBPS/images",
            "OEBPS/images/fig.bin",
        ]
    );
    assert!(is_valid_plan(&planned));

    let turned = plan_package("tree", EPUB_MIME, &content, &container).unwrap();
    assert_eq!(turned[0].name, "mimetype");
    assert_eq!(turned[1].name, "OEBPS");
    assert_eq!(turned[6].name, "META-INF");
    assert_eq!(turned.len(), planned.len());
}

#[test]
fn plan_package_takes_empty_walks() {
    let none: Vec<TreeNode> = Vec::new();
    assert_eq!(
        plan_package("tree", EPUB_MIME, &none, &none),
        Ok(vec![file_entry("mimetype", EPUB_MIME)])
    );
    let content = vec![dir("tree/OEBPS")];
    assert_eq!(
        plan_package("tree", EPUB_MIME, &none, &content),
        Ok(vec![file_entry("mimetype", EPUB_MIME), dir_entry("OEBPS")])
    );
    assert_eq!(
        plan_package("tree", EPUB_MIME, &content, &none),
        Ok(vec![file_entry("mimetype", EPUB_MIME), dir_entry("OEBPS")])
    );
}

#[test]
fn plan_package_reports_the_first_failure_of_the_two_walks() {
    let good = vec![dir("tree/META-INF"), file("tree/META-INF/a", b"a")];
    let outside = vec![file("elsewhere/b", b"b")];
    let again = vec![file("tree/META-INF/a", b"c")];
    assert_eq!(plan_package("tree", EPUB_MIME, &good, &outside), Err(EpubError::UnsafeEntryName));
    assert_eq!(plan_package("tree", EPUB_MIME, &outside, &good), Err(EpubError::UnsafeEntryName));
    assert_eq!(plan_package("tree", EPUB_MIME, &good, &again), Err(EpubError::Create));
    assert_eq!(plan_package("tree", EPUB_MIME, &again, &outside), Err(EpubError::UnsafeEntryName));
    assert_eq!(plan_package("tree", EPUB_MIME, &outside, &outside), Err(EpubError::UnsafeEntryName));
}

#[test]
fn content_beyond_the_limit_is_refused() {
    assert_eq!(CONTENT_LIMIT, 0x7FFF_FFFF);
    let big: Vec<u8> = vec![0u8; CONTENT_LIMIT + 1];
    assert_eq!(plan_archive("tree", &big, &Vec::new()), Err(EpubError::Io));

    let nodes = vec![
        dir("tree/OEBPS"),
        TreeNode { path: "tree/OEBPS/big".to_string(), is_file: true, content: big },
    ];
    assert_eq!(plan_archive("tree", EPUB_MIME, &nodes), Err(EpubError::Io));
    let none: Vec<TreeNode> = Vec::new();
    assert_eq!(plan_package("tree", EPUB_MIME, &none, &nodes), Err(EpubError::Io));
    assert_eq!(plan_package("tree", EPUB_MIME, &nodes, &none), Err(EpubError::Io));

    let mut nodes = nodes;
    let big = nodes.pop().unwrap().content;
    let plan = vec![
        file_entry("mimetype", EPUB_MIME),
        ArchiveEntry {
            name: "OEBPS/big".to_string(),
            content: big,
            kind: EntryKind::File,
            permissions: 0o755,
        },
    ];
    assert!(!is_valid_plan(&plan));

    let mut plan = plan;
    let big = plan.pop().unwrap().content;
    let as_directory =
        vec![TreeNode { path: "tree/OEBPS".to_string(), is_file: false, content: big }];
    assert_eq!(
        plan_archive("tree", EPUB_MIME, &as_directory),
        Ok(vec![file_entry("mimetype", EPUB_MIME), dir_entry("OEBPS")])
    );
}

#[test]
fn a_path_outside_the_root_is_reported_before_its_size() {
    let nodes = vec![file("elsewhere/a", b"a")];
    assert_eq!(plan_archive("tree", EPUB_MIME, &nodes), Err(EpubError::UnsafeEntryName));
}

#[test]
fn plan_leaves_out_the_root_itself() {
    let nodes = vec![dir("tree"), dir("tree/OEBPS"), dir("tree/")];
    let entries = plan_archive("tree", EPUB_MIME, &nodes).unwrap();
    assert_eq!(entries, vec![file_entry("mimetype", EPUB_MIME), dir_entry("OEBPS")]);
}

#[test]
fn plan_ignores_the_content_of_a_directory_node() {
    let nodes =
        vec![TreeNode { path: "tree/OEBPS".to_string(), is_file: false, content: vec![1, 2, 3] }];
    let entries = plan_archive("tree", EPUB_MIME, &nodes).unwrap();
    assert_eq!(entries[1], dir_entry("OEBPS"));
}

#[test]
fn plan_refuses_a_path_outside_the_root() {
    let nodes = vec![dir("tree/OEBPS"), file("elsewhere/a.txt", b"a"), file("tree/OEBPS/b", b"b")];
    assert_eq!(plan_archive("tree", EPUB_MIME, &nodes), Err(EpubError::UnsafeEntryName));
    let nodes = vec![file("treetop/a.txt", b"a")];
    assert_eq!(plan_archive("tree", EPUB_MIME, &nodes), Err(EpubError::UnsafeEntryName));
}

#[test]
fn plan_refuses_a_name_that_is_taken() {
    let nodes = vec![dir("tree/OEBPS"), file("tree/OEBPS/a", b"1"), file("tree/OEBPS/a", b"2")];
    assert_eq!(plan_archive("tree", EPUB_MIME, &nodes), Err(EpubError::Create));
    let nodes = vec![file("tree/mimetype", b"again")];
    assert_eq!(plan_archive("tree", EPUB_MIME, &nodes), Err(EpubError::Create));
    let nodes = vec![dir("tree/OEBPS"), dir("tree/OEBPS/")];
    assert_eq!(plan_archive("tree", EPUB_MIME, &nodes), Err(EpubError::Create));
    let nodes = vec![dir("tree/a"), file("tree/a/", b"")];
    assert_eq!(plan_archive("tree", EPUB_MIME, &nodes), Err(EpubError::Create));
}

#[test]
fn plan_tells_a_file_from_a_directory_of_the_same_name() {
    let nodes = vec![file("tree/a", b"1"), dir("tree/a")];
    let entries = plan_archive("tree", EPUB_MIME, &nodes).unwrap();
    assert_eq!(entries.len(), 3);
    assert!(is_valid_plan(&entries));
}

#[test]
fn the_first_failure_of_a_plan_is_reported() {
    let nodes = vec![file("tree/a", b"1"), file("out/b", b"2"), file("tree/a", b"3")];
    assert_eq!(plan_archive("tree", EPUB_MIME, &nodes), Err(EpubError::UnsafeEntryName));
    let nodes = vec![file("tree/a", b"1"), file("tree/a", b"3"), file("out/b", b"2")];
    assert_eq!(plan_archive("tree", EPUB_MIME, &nodes), Err(EpubError::Create));
}

#[test]
fn a_valid_plan_begins_with_mimetype_and_has_no_name_twice() {
    assert!(is_valid_plan(&vec![file_entry("mimetype", b"x"), dir_entry("OEBPS")]));
    assert!(is_valid_plan(&vec![file_entry("mimetype", b"x")]));
    assert!(!is_valid_plan(&Vec::new()));
    assert!(!is_valid_plan(&vec![dir_entry("mimetype")]));
    assert!(!is_valid_plan(&vec![file_entry("OEBPS/a", b"x"), file_entry("mimetype", b"x")]));
    assert!(!is_valid_plan(&vec![
        file_entry("mimetype", b"x"),
        file_entry("a", b"1"),
        dir_entry("b"),
        file_entry("a", b"2"),
    ]));
    assert!(!is_valid_plan(&vec![file_entry("mimetype", b"x"), file_entry("mimetype", b"x")]));
    assert!(!is_valid_plan(&vec![file_entry("mimetype", b"x"), dir_entry("b"), dir_entry("b/")]));
    assert!(!is_valid_plan(&vec![file_entry("mimetype", b"x"), dir_entry("b"), file_entry("b/", b"")]));
    assert!(is_valid_plan(&vec![file_entry("mimetype", b"x"), dir_entry("b"), file_entry("b", b"")]));
}

#[test]
fn a_directory_is_recorded_with_a_closing_slash() {
    assert_eq!(directory_form("META-INF"), "META-INF/");
    assert_eq!(directory_form("META-INF/"), "META-INF/");
    assert_eq!(directory_form("a\\"), "a\\");
    assert_eq!(directory_form(""), "/");
    assert_eq!(directory_form("枝"), "枝/");
}

#[test]
fn the_written_archive_starts_with_the_stored_mimetype() {
    let bytes = sample_epub();
    assert_eq!(&bytes[0..4], &[0x50, 0x4B, 0x03, 0x04]);
    assert_eq!(&bytes[30..38], b"mimetype");
    assert_eq!(&bytes[38..38 + EPUB_MIME.len()], EPUB_MIME);
}

#[test]
fn the_written_archive_records_names_kinds_and_permissions() {
    let bytes = sample_epub();
    let mut archive = zip::ZipArchive::new(Cursor::new(bytes)).unwrap();
    let mut seen = Vec::new();
    for i in 0..archive.len() {
        let mut member = archive.by_index(i).unwrap();
        let mut data = Vec::new();
        member.read_to_end(&mut data).unwrap();
        seen.push((
            member.name().to_string(),
            member.unix_mode(),
            member.compression(),
            data,
        ));
    }
    let names: Vec<&str> = seen.iter().map(|m| m.0.as_str()).collect();
    assert_eq!(
        names,
        vec![
            "mimetype",
            "META-INF/",
            "META-INF/container.xml",
            "OEBPS/",
            "OEBPS/book.opf",
            "OEBPS/c1.xhtml",
            "OEBPS/images/",
            "OEBPS/images/fig.bin",
        ]
    );
    assert_eq!(seen[0].1, Some(0o100755));
    assert_eq!(seen[0].2, zip::CompressionMethod::Stored);
    assert_eq!(seen[0].3, EPUB_MIME);
    assert_eq!(seen[1].1, Some(0o40755));
    assert_eq!(seen[1].2, zip::CompressionMethod::Stored);
    assert_eq!(seen[2].1, Some(0o100755));
    assert_eq!(seen[2].2, zip::CompressionMethod::Deflated);
    assert_eq!(seen[2].3, b"<container/>");
    assert_eq!(seen[7].3, vec![0u8, 1, 2, 3, 255, 254]);
}

#[test]
fn the_written_archive_does_not_depend_on_the_time() {
    assert_eq!(sample_epub(), sample_epub());
}

#[test]
fn permissions_keep_their_lowest_nine_bits() {
    let mut writer = ArchiveWriter::begin();
    writer.add_file("mimetype", EPUB_MIME, 0o7644).unwrap();
    writer.add_directory("d", 0o170700).unwrap();
    let bytes = writer.finish().unwrap();
    let mut archive = zip::ZipArchive::new(Cursor::new(bytes)).unwrap();
    assert_eq!(archive.by_index(0).unwrap().unix_mode(), Some(0o100644));
    assert_eq!(archive.by_index(1).unwrap().unix_mode(), Some(0o40700));
}

#[test]
fn writer_adds_members_in_order() {
    let mut writer = ArchiveWriter::begin();
    writer.add_file("mimetype", EPUB_MIME, 0o755).unwrap();
    writer.add_directory("META-INF", 0o755).unwrap();
    writer.add_directory("OEBPS/", 0o755).unwrap();
    writer.add_file("OEBPS/a.txt", b"", 0o755).unwrap();
    writer.add_file("OEBPS/b.txt", b"bbbb", 0o755).unwrap();
    let bytes = writer.finish().unwrap();
    let mut reader = ArchiveReader::open(bytes).unwrap();
    assert_eq!(reader.entry_count(), 5);
    let steps = reader.extract_all("out").unwrap();
    assert_eq!(
        steps,
        vec![
            ExtractStep::WriteFile {
                path: "out/mimetype".to_string(),
                parent: "out".to_string(),
                data: EPUB_MIME.to_vec(),
            },
            ExtractStep::CreateDir { path: "out/META-INF/".to_string() },
            ExtractStep::CreateDir { path: "out/OEBPS/".to_string() },
            ExtractStep::WriteFile {
                path: "out/OEBPS/a.txt".to_string(),
                parent: "out/OEBPS".to_string(),
                data: Vec::new(),
            },
            ExtractStep::WriteFile {
                path: "out/OEBPS/b.txt".to_string(),
                parent: "out/OEBPS".to_string(),
                data: b"bbbb".to_vec(),
            },
        ]
    );
}

#[test]
fn an_empty_archive_has_no_steps() {
    let bytes = ArchiveWriter::begin().finish().unwrap();
    let mut reader = ArchiveReader::open(bytes).unwrap();
    assert_eq!(reader.entry_count(), 0);
    assert_eq!(reader.extract_all("out"), Ok(Vec::new()));
}

#[test]
fn extract_all_can_be_asked_twice() {
    let mut reader = ArchiveReader::open(sample_epub()).unwrap();
    let first = reader.extract_all("a").unwrap();
    let second = reader.extract_all("a").unwrap();
    assert_eq!(first, second);
    assert_eq!(reader.entry_count(), 8);
}

#[test]
fn a_reader_reads_the_bytes_it_was_opened_on() {
    let one = archive_with_names(&["a"]);
    let two = archive_with_names(&["a", "b"]);
    assert_eq!(ArchiveReader::open(one).unwrap().entry_count(), 1);
    assert_eq!(ArchiveReader::open(two).unwrap().entry_count(), 2);
}

#[test]
fn what_is_not_an_archive_cannot_be_opened() {
    assert_eq!(ArchiveReader::open(Vec::new()).err(), Some(EpubError::Open));
    assert_eq!(ArchiveReader::open(b"not a zip file at all".to_vec()).err(), Some(EpubError::Open));
}

#[test]
fn a_damaged_member_fails_the_plan() {
    let mut bytes = sample_epub();
    bytes[40] ^= 0xFF;
    let mut reader = ArchiveReader::open(bytes).unwrap();
    assert_eq!(reader.extract_all("out"), Err(EpubError::Io));
}

#[test]
fn a_member_with_a_bad_header_fails_the_plan() {
    let mut bytes = sample_epub();
    bytes[0] = 0;
    let mut reader = ArchiveReader::open(bytes).unwrap();
    assert_eq!(reader.extract_all("out"), Err(EpubError::Io));
}

#[test]
fn members_with_parent_traversal_are_passed_over() {
    let bytes = archive_with_names(&["ok.txt", "../../etc/passwd", "a/../../b", "dir/ok2.txt"]);
    let mut reader = ArchiveReader::open(bytes).unwrap();
    assert_eq!(reader.entry_count(), 4);
    let steps = reader.extract_all("dest").unwrap();
    assert_eq!(
        steps,
        vec![
            ExtractStep::WriteFile {
                path: "dest/ok.txt".to_string(),
                parent: "dest".to_string(),
                data: b"ok.txt".to_vec(),
            },
            ExtractStep::WriteFile {
                path: "dest/dir/ok2.txt".to_string(),
                parent: "dest/dir".to_string(),
                data: b"dir/ok2.txt".to_vec(),
            },
        ]
    );
}

#[test]
fn members_with_absolute_or_nul_names_are_passed_over() {
    let bytes = archive_with_names(&["/etc/passwd", "a\0b", "fine"]);
    let mut reader = ArchiveReader::open(bytes).unwrap();
    let steps = reader.extract_all("dest").unwrap();
    assert_eq!(
        steps,
        vec![ExtractStep::WriteFile {
            path: "dest/fine".to_string(),
            parent: "dest".to_string(),
            data: b"fine".to_vec(),
        }]
    );
}

#[test]
fn a_member_that_steps_up_inside_the_tree_is_kept() {
    let bytes = archive_with_names(&["a/../b.txt"]);
    let mut reader = ArchiveReader::open(bytes).unwrap();
    let steps = reader.extract_all("dest").unwrap();
    assert_eq!(
        steps,
        vec![ExtractStep::WriteFile {
            path: "dest/a/../b.txt".to_string(),
            parent: "dest/a/..".to_string(),
            data: b"a/../b.txt".to_vec(),
        }]
    );
}

#[test]
fn a_passed_over_member_is_not_read() {
    let mut bytes = archive_with_names(&["../evil", "good"]);
    // The content of the first member starts after its 30-byte header and
    // its 7-byte name; damage it.
    bytes[37] ^= 0xFF;
    let mut reader = ArchiveReader::open(bytes).unwrap();
    let steps = reader.extract_all("dest").unwrap();
    assert_eq!(steps.len(), 1);
}

#[test]
fn unpacking_and_archiving_again_gives_the_same_tree() {
    let bytes = sample_epub();
    let mut tree = BTreeMap::new();
    let steps = ArchiveReader::open(bytes).unwrap().extract_all("scratch").unwrap();
    unpack(&steps, &mut tree);

    let (mimetype, walks) = tree_sources("scratch");
    let mut nodes = Vec::new();
    for top in &walks {
        nodes.extend(walk(&tree, top));
    }
    let entries = plan_archive("scratch", &tree[&mimetype], &nodes).unwrap();
    let again = write_archive(&entries).unwrap();

    let mut tree_again = BTreeMap::new();
    let steps_again = ArchiveReader::open(again).unwrap().extract_all("scratch").unwrap();
    unpack(&steps_again, &mut tree_again);
    assert_eq!(tree_again, tree);
    assert_eq!(tree["scratch/OEBPS/images/fig.bin"], vec![0u8, 1, 2, 3, 255, 254]);
    assert_eq!(tree["scratch/mimetype"], EPUB_MIME);
}

#[test]
fn a_whole_run_adds_the_cover_to_the_package() {
    let image: Vec<u8> = vec![0xFF, 0xD8, 0xFF, 0xE0, 1, 2, 3, 4];
    let config = RepackConfig {
        epub: "book.epub".to_string(),
        image: "cover.jpg".to_string(),
        media: "jpeg".to_string(),
        keep_tmp: false,
    };
    let mut disk: BTreeMap<String, Vec<u8>> = BTreeMap::new();
    disk.insert("book.epub".to_string(), sample_epub());
    disk.insert("cover.jpg".to_string(), image.clone());

    let mut stage = Stage::Start;
    while let Some(action) = next_action(stage, &config) {
        let outcome = match action {
            Action::Extract { archive, into } => ArchiveReader::open(disk[&archive].clone())
                .and_then(|mut reader| reader.extract_all(&into))
                .map(|steps| unpack(&steps, &mut disk)),
            Action::EditManifest { manifest, media } => {
                edit_manifest(&disk[&manifest], &media).map(|edited| {
                    disk.insert(manifest, edited);
                })
            }
            Action::CopyImage { from, to } => {
                let data = disk[&from].clone();
                disk.insert(to, data);
                Ok(())
            }
            Action::Rearchive { tree, output } => {
                let (mimetype, walks) = tree_sources(&tree);
                let container = walk(&disk, &walks[0]);
                let content = walk(&disk, &walks[1]);
                plan_package(&tree, &disk[&mimetype], &container, &content)
                    .and_then(|entries| write_archive(&entries))
                    .map(|bytes| {
                        disk.insert(output, bytes);
                    })
            }
            Action::RemoveScratch { dir } => {
                let prefix = format!("{}/", dir);
                disk.retain(|path, _| !path.starts_with(&prefix));
                Ok(())
            }
            Action::KeepScratch { .. } | Action::Finish => Ok(()),
        };
        stage = advance(stage, config.keep_tmp, outcome);
    }
    assert_eq!(stage, Stage::Done);
    assert_eq!(disk.len(), 2);

    let mut reader = ArchiveReader::open(disk["book.epub"].clone()).unwrap();
    let steps = reader.extract_all("again").unwrap();
    match &steps[0] {
        ExtractStep::WriteFile { path, data, .. } => {
            assert_eq!(path, "again/mimetype");
            assert_eq!(data, EPUB_MIME);
        }
        _ => panic!("the first member is not a file"),
    }
    let mut tree = BTreeMap::new();
    unpack(&steps, &mut tree);
    let manifest = String::from_utf8(tree["again/OEBPS/book.opf"].clone()).unwrap();
    let lines: Vec<&str> = manifest.lines().collect();
    assert_eq!(lines[9], "<manifest>");
    assert_eq!(
        lines[10],
        "<item properties=\"cover-image\" id=\"my-cover-image\" href=\"cover.jpeg\" media-type=\"image/jpeg\"/>"
    );
    assert_eq!(tree["again/OEBPS/cover.jpeg"], image);
    assert_eq!(tree["again/OEBPS/c1.xhtml"], b"<html>chapter one, chapter one, chapter one</html>");
}

#[test]
fn a_run_on_a_package_without_manifest_marker_fails() {
    let nodes = vec![dir("t/OEBPS"), file("t/OEBPS/book.opf", b"<package/>\n")];
    let epub = write_archive(&plan_archive("t", EPUB_MIME, &nodes).unwrap()).unwrap();
    let steps = ArchiveReader::open(epub).unwrap().extract_all("__extract_epub_tmp").unwrap();
    let mut disk = BTreeMap::new();
    unpack(&steps, &mut disk);
    let before = disk.clone();
    let outcome = edit_manifest(&disk["__extract_epub_tmp/OEBPS/book.opf"], "png").map(|_| ());
    assert_eq!(outcome, Err(EpubError::MarkerNotFound));
    assert_eq!(
        advance(Stage::Extracted, false, outcome),
        Stage::Failed(EpubError::MarkerNotFound)
    );
    assert_eq!(disk, before);
}
