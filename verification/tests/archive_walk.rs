use std::io::Write;

use jar_remap::archive::{load_mapping_set, JarRemapper, RemapError};
use jar_remap::mapping::{Mapping, MappingSet};
use jar_remap::walker::{
    output_path_exec, plan_outputs, safe_name_exec, EntryAction, OutputItem,
};
use zip::write::SimpleFileOptions;
use zip::write::ZipWriter;

fn b(s: &str) -> Vec<u8> {
    s.as_bytes().to_vec()
}

fn make_zip(entries: &[(&str, &[u8])]) -> Vec<u8> {
    let mut w = ZipWriter::new(std::io::Cursor::new(Vec::new()));
    let opts = SimpleFileOptions::default();
    for (name, data) in entries {
        if name.ends_with('/') {
            w.add_directory(name.trim_end_matches('/'), opts).unwrap();
        } else {
            w.start_file(*name, opts).unwrap();
            w.write_all(data).unwrap();
        }
    }
    w.finish().unwrap().into_inner()
}

#[test]
fn unsafe_entry_names_are_rejected() {
    assert!(!safe_name_exec(&b("../evil")));
    assert!(!safe_name_exec(&b("a/../b")));
    assert!(!safe_name_exec(&b("/absolute")));
    assert!(!safe_name_exec(&b("a\\b")));
    assert!(!safe_name_exec(&b("c:d")));
    assert!(!safe_name_exec(&b("")));
    assert!(safe_name_exec(&b("com/example/App.java")));
    assert!(safe_name_exec(&b("name.with..dots")));
}

#[test]
fn output_paths_strip_the_archive_suffix() {
    assert_eq!(output_path_exec(&b("game.jar"), &b("com/A.java")), b("game/com/A.java"));
    assert_eq!(output_path_exec(&b("noext"), &b("f.txt")), b("f.txt"));
    assert_eq!(output_path_exec(&b(".jar"), &b("f.txt")), b("f.txt"));
}

#[test]
fn plan_keeps_non_source_entries_byte_identical() {
    let mut fields = Mapping::new();
    fields.insert(b("field_1a"), b("x"));
    let ms = MappingSet { fields, methods: Mapping::new(), params: Mapping::new() };
    let raw: Vec<u8> = vec![0u8, 159u8, 146u8, 150u8, 102u8];
    let entries = vec![(b("data.bin"), raw.clone())];
    let items: Vec<OutputItem> = plan_outputs(&b("app.jar"), &entries, &ms);
    assert_eq!(items.len(), 1);
    assert_eq!(items[0].path, b("app/data.bin"));
    match &items[0].action {
        EntryAction::WriteFile(content) => assert_eq!(content, &raw),
        EntryAction::MakeDirectory => panic!("expected a file"),
    }
}

#[test]
fn load_mapping_set_reads_all_three_streams() {
    let zip_bytes = make_zip(&[
        ("fields.csv", b"obf,name\nfield_1a,hp\n"),
        ("methods.csv", b"obf,name\nfunc_2do,update\n"),
        ("params.csv", b"obf,name\np_1_2_,delta\n"),
    ]);
    let ms = load_mapping_set(zip_bytes).unwrap();
    assert_eq!(ms.fields.get(&b("field_1a")), Some(&b("hp")));
    assert_eq!(ms.methods.get(&b("func_2do")), Some(&b("update")));
    assert_eq!(ms.params.get(&b("p_1_2_")), Some(&b("delta")));
}

#[test]
fn missing_streams_yield_empty_mappings() {
    let zip_bytes = make_zip(&[("fields.csv", b"obf,name\nfield_1a,hp\n")]);
    let ms = load_mapping_set(zip_bytes).unwrap();
    assert_eq!(ms.fields.get(&b("field_1a")), Some(&b("hp")));
    assert_eq!(ms.methods.get(&b("func_2do")), None);
    assert_eq!(ms.params.get(&b("p_1_2_")), None);
}

#[test]
fn unrelated_entries_do_not_disturb_loading() {
    // locating the streams consults names only, so other entries —
    // binary ones included — never affect the result
    let raw: Vec<u8> = vec![0u8, 216u8, 255u8, 7u8];
    let zip_bytes = make_zip(&[
        ("junk.bin", raw.as_slice()),
        ("fields.csv", b"obf,name\nfield_1a,hp\n"),
        ("more/junk2.bin", raw.as_slice()),
    ]);
    let ms = load_mapping_set(zip_bytes).unwrap();
    assert_eq!(ms.fields.get(&b("field_1a")), Some(&b("hp")));
    assert_eq!(ms.methods.get(&b("func_2do")), None);
}

#[test]
fn unreadable_mappings_container_is_fatal() {
    let r = load_mapping_set(b("this is not a zip archive"));
    assert_eq!(r.err(), Some(RemapError::MappingLoad));
}

#[test]
fn unreadable_target_archive_is_fatal() {
    let remapper = JarRemapper::new(MappingSet::empty());
    let r = remapper.remap_jar(&b("x.jar"), b("junk bytes"));
    assert!(matches!(r, Err(RemapError::ArchiveOpen)));
}

#[test]
fn whole_archive_remap_rewrites_only_eligible_entries() {
    let mappings_zip = make_zip(&[(
        "fields.csv",
        b"obf,name\nfield_1a,x\nfield_2b,y\n",
    )]);
    let ms = load_mapping_set(mappings_zip).unwrap();
    let remapper = JarRemapper::new(ms);

    let raw: Vec<u8> = vec![1u8, 2u8, 254u8, 255u8];
    let target = make_zip(&[
        ("com/", b""),
        ("com/Main.java", b"field_1a,field_2b"),
        ("data.bin", raw.as_slice()),
    ]);
    let outcome = remapper.remap_jar(&b("app.jar"), target).unwrap();
    assert_eq!(outcome.skipped, 0);
    assert_eq!(outcome.items.len(), 3);

    assert_eq!(outcome.items[0].path, b("app/com/"));
    assert!(matches!(outcome.items[0].action, EntryAction::MakeDirectory));

    assert_eq!(outcome.items[1].path, b("app/com/Main.java"));
    match &outcome.items[1].action {
        EntryAction::WriteFile(content) => assert_eq!(content, &b("x,y")),
        EntryAction::MakeDirectory => panic!("expected a file"),
    }

    assert_eq!(outcome.items[2].path, b("app/data.bin"));
    match &outcome.items[2].action {
        EntryAction::WriteFile(content) => assert_eq!(content, &raw),
        EntryAction::MakeDirectory => panic!("expected a file"),
    }
}

#[test]
fn remap_with_empty_mappings_copies_sources_byte_identically() {
    let remapper = JarRemapper::new(MappingSet::empty());
    let source = b"class A { int field_1a; void func_2do(int p_1_2_) {} }";
    let target = make_zip(&[("A.java", source)]);
    let outcome = remapper.remap_jar(&b("lib.jar"), target).unwrap();
    assert_eq!(outcome.items.len(), 1);
    match &outcome.items[0].action {
        EntryAction::WriteFile(content) => assert_eq!(content.as_slice(), source.as_slice()),
        EntryAction::MakeDirectory => panic!("expected a file"),
    }
}
