use winswitch::registry::{build_registry, snapshot, EnumerationError, RawWindow, WindowHandle};

fn title_buffer(s: &str) -> Vec<u16> {
    let mut v: Vec<u16> = s.encode_utf16().collect();
    v.push(0);
    v
}

fn raw(id: u64, title: &str, visible: bool) -> RawWindow {
    RawWindow { handle: WindowHandle { id }, title_buffer: title_buffer(title), visible }
}

fn titles(r: &winswitch::registry::Registry) -> Vec<String> {
    r.entries.iter().map(|e| e.title.clone()).collect()
}

#[test]
fn snapshot_sorts_titles_ascending() {
    let raws = vec![
        raw(1, "Notepad", true),
        raw(2, "Calculator", true),
        raw(3, "Code", true),
    ];
    let r = build_registry(&raws);
    assert_eq!(titles(&r), vec!["Calculator", "Code", "Notepad"]);
}

#[test]
fn snapshot_collapses_duplicate_titles() {
    let raws = vec![
        raw(10, "Untitled", true),
        raw(20, "Untitled", true),
    ];
    let r = build_registry(&raws);
    assert_eq!(r.entries.len(), 1);
    assert_eq!(r.entries[0].title, "Untitled");
}

#[test]
fn snapshot_drops_empty_titles_and_invisible_windows() {
    let raws = vec![
        raw(1, "", true),
        raw(2, "Hidden", false),
        raw(3, "Shown", true),
    ];
    let r = build_registry(&raws);
    assert_eq!(titles(&r), vec!["Shown"]);
}

#[test]
fn snapshot_skips_undecodable_title_buffers() {
    let lone_surrogate = RawWindow {
        handle: WindowHandle { id: 7 },
        title_buffer: vec![0xD800, 0],
        visible: true,
    };
    let raws = vec![lone_surrogate, raw(8, "Fine", true)];
    let r = build_registry(&raws);
    assert_eq!(titles(&r), vec!["Fine"]);
}

#[test]
fn title_is_cut_at_first_nul() {
    let mut buffer: Vec<u16> = "AB".encode_utf16().collect();
    buffer.push(0);
    buffer.extend("junk".encode_utf16());
    let raws = vec![RawWindow {
        handle: WindowHandle { id: 5 },
        title_buffer: buffer,
        visible: true,
    }];
    let r = build_registry(&raws);
    assert_eq!(titles(&r), vec!["AB"]);
}

#[test]
fn selecting_an_index_resolves_to_that_entrys_handle() {
    let raws = vec![
        raw(1, "Notepad", true),
        raw(2, "Calculator", true),
        raw(3, "Code", true),
    ];
    let r = build_registry(&raws);
    let listing = r.numbered_titles();
    for i in 0..r.len() {
        assert_eq!(listing[i], r.entries[i].title);
        assert_eq!(r.select(i), Some(r.entries[i].handle));
    }
    assert_eq!(r.select(r.len()), None);
}

#[test]
fn resolving_a_listed_title_finds_its_handle() {
    let raws = vec![
        raw(1, "Notepad", true),
        raw(2, "Calculator", true),
    ];
    let r = build_registry(&raws);
    assert_eq!(r.resolve_title("Notepad"), Some(WindowHandle { id: 1 }));
    assert_eq!(r.resolve_title("Calculator"), Some(WindowHandle { id: 2 }));
    assert_eq!(r.resolve_title("Terminal"), None);
}

#[test]
fn snapshot_succeeds_exactly_when_enumeration_was_delivered() {
    let raws = vec![raw(1, "Notepad", true)];
    let registry = snapshot(Some(&raws)).unwrap();
    assert_eq!(titles(&registry), vec!["Notepad"]);
    match snapshot(None) {
        Ok(_) => panic!("snapshot must fail when no enumeration was delivered"),
        Err(e) => assert_eq!(e, EnumerationError::Refused),
    }
}

#[test]
fn duplicate_titles_keep_one_representative_handle() {
    let raws = vec![
        raw(10, "Untitled", true),
        raw(20, "Untitled", true),
    ];
    let r = build_registry(&raws);
    let h = r.resolve_title("Untitled").unwrap();
    assert!(h == WindowHandle { id: 10 } || h == WindowHandle { id: 20 });
}
