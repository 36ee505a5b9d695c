use toporepo::cache::body_hash;
use toporepo::index::{FileData, Index};
use toporepo::semantic::{def_entries, def_text, fill_slots, DefRef, MAX_DEF_BYTES};
use toporepo::tags::{Kind, Tag};

fn tag(start: usize, end: usize, doc: Option<&str>) -> Tag {
    Tag {
        name: "f".to_string(),
        kind: Kind::Def,
        line: 1,
        end_line: 1,
        start_byte: start,
        end_byte: end,
        doc: doc.map(|d| d.to_string()),
        doc_line: doc.map(|_| 1),
    }
}

#[test]
fn def_text_is_trimmed_code() {
    let src = "xx\n  fn f() {}  \nyy";
    assert_eq!(def_text(src, &tag(3, 17, None)), "fn f() {}");
}

#[test]
fn def_text_puts_doc_first() {
    let src = "fn f() {}";
    assert_eq!(def_text(src, &tag(0, 9, Some("Does f."))), "Does f.\nfn f() {}");
}

#[test]
fn def_text_clamps_range() {
    let src = "fn f() {}";
    assert_eq!(def_text(src, &tag(3, 1000, None)), "f() {}");
    assert_eq!(def_text(src, &tag(50, 1000, None)), "");
    assert_eq!(def_text(src, &tag(5, 2, None)), "");
}

#[test]
fn def_text_caps_long_bodies_at_char_boundary() {
    assert_eq!(MAX_DEF_BYTES, 2000);
    let body = "a".repeat(1999) + "é" + "tail";
    let out = def_text(&body, &tag(0, body.len(), None));
    // the two-byte char would end past byte 2000, so the cut is before it
    assert_eq!(out, "a".repeat(1999));
    let plain = "b".repeat(2500);
    assert_eq!(def_text(&plain, &tag(0, 2500, None)).len(), 2000);
}

#[test]
fn def_entries_hash_each_text() {
    let source = "fn a() {}\nfn b() {}\n".to_string();
    let mut ta = tag(0, 9, None);
    ta.name = "a".to_string();
    let mut r = tag(4, 5, None);
    r.kind = Kind::Ref;
    let mut tb = tag(10, 19, Some("B."));
    tb.name = "b".to_string();
    let idx = Index::from_files(vec![FileData {
        path: "/r/x.rs".to_string(),
        rel: "x.rs".to_string(),
        source,
        tags: vec![ta, r, tb],
    }]);
    let entries = def_entries(&idx, 0);
    assert_eq!(entries.len(), 2);
    assert_eq!((entries[0].0, entries[0].1.as_str()), (0, "fn a() {}"));
    assert_eq!(entries[0].2, body_hash("fn a() {}"));
    assert_eq!((entries[1].0, entries[1].1.as_str()), (2, "B.\nfn b() {}"));
    assert_eq!(entries[1].2, body_hash("B.\nfn b() {}"));
}

#[test]
fn def_refs_compare_by_fields() {
    assert_eq!(DefRef { file: 1, tag: 2 }, DefRef { file: 1, tag: 2 });
    assert_ne!(DefRef { file: 1, tag: 2 }, DefRef { file: 2, tag: 1 });
}

#[test]
fn fresh_values_fill_empty_slots_in_order() {
    let slots = vec![Some("c0"), None, Some("c2"), None, None];
    assert_eq!(fill_slots(slots, vec!["f0", "f1"]), vec![Some("c0"), Some("f0"), Some("c2"), Some("f1"), None]);
    assert_eq!(fill_slots::<u8>(vec![], vec![1, 2]), vec![]);
    assert_eq!(fill_slots(vec![None, None], vec![7u8]), vec![Some(7), None]);
}

#[test]
fn def_text_trims_exactly_std_white_space() {
    let mut chars: Vec<char> = (0u32..0x3100).filter_map(char::from_u32).collect();
    chars.extend(['\u{feff}', '\u{200b}', '\u{1680}', '\u{180e}']);
    for c in chars {
        let source = format!("{c}a{c}");
        let expected = if c.is_whitespace() { "a".to_string() } else { source.clone() };
        assert_eq!(def_text(&source, &tag(0, source.len(), None)), expected, "U+{:04X}", c as u32);
    }
}
