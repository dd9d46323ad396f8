use esox::tools::{find_tool, focus_after_click, focused_sidebar_item, sidebar_entries, SidebarEntry, sidebar_navigate, tools, tools_in_category, Category, InputKind, OptionKind, OutputKind};

#[test]
fn registry_ids_and_labels() {
    let all = tools();
    let ids: Vec<&str> = all.iter().map(|t| t.id).collect();
    assert_eq!(
        ids,
        vec![
            "download", "trim", "convert", "resize", "compress-image", "pdf-split", "pdf-merge", "pdf-compress",
            "qr-gen", "qr-decode", "zip", "unzip"
        ]
    );
    assert_eq!(find_tool("qr-decode").unwrap().label, "Decode QR");
    assert_eq!(find_tool("qr-decode").unwrap().output, OutputKind::Text);
    assert!(find_tool("nothing").is_none());
}

#[test]
fn tool_inputs_and_options() {
    let merge = find_tool("pdf-merge").unwrap();
    match merge.input {
        InputKind::File { accept, multiple } => {
            assert_eq!(accept, vec![".pdf"]);
            assert!(multiple);
        },
        _ => panic!("pdf-merge takes files"),
    }
    let compress = find_tool("compress-image").unwrap();
    match &compress.options[0].kind {
        OptionKind::Slider { min, max, default } => assert_eq!((*min, *max, *default), (1, 100, 80)),
        _ => panic!("quality is a slider"),
    }
}

#[test]
fn categories() {
    let labels: Vec<&str> = Category::all().iter().map(|c| c.label()).collect();
    assert_eq!(labels, vec!["DOWNLOAD", "VIDEO", "IMAGE", "PDF", "QR & TEXT", "ARCHIVE"]);
    let pdf: Vec<&str> = tools_in_category(Category::Pdf).iter().map(|t| t.id).collect();
    assert_eq!(pdf, vec!["pdf-split", "pdf-merge", "pdf-compress"]);
    assert_eq!(tools_in_category(Category::Download).len(), 1);
}

#[test]
fn sidebar_wraps_around() {
    assert_eq!(sidebar_navigate(None, 12, 1), Some(1));
    assert_eq!(sidebar_navigate(Some(11), 12, 1), Some(0));
    assert_eq!(sidebar_navigate(Some(0), 12, -1), Some(11));
    assert_eq!(sidebar_navigate(Some(5), 12, -1), Some(4));
    assert_eq!(sidebar_navigate(None, 0, 1), None);
    assert_eq!(sidebar_navigate(Some(3), 0, -1), Some(3));
}

#[test]
fn focus_index_counts_tool_items_only() {
    let is_header = vec![true, false, false, true, false];
    assert_eq!(focused_sidebar_item(&is_header, Some(0)), Some(1));
    assert_eq!(focused_sidebar_item(&is_header, Some(2)), Some(4));
    assert_eq!(focused_sidebar_item(&is_header, Some(3)), None);
    assert_eq!(focused_sidebar_item(&is_header, None), None);
}

#[test]
fn sidebar_lists_headers_then_their_tools() {
    let entries = sidebar_entries();
    assert_eq!(entries.len(), 18);
    assert_eq!(entries[0], SidebarEntry::Header(Category::Download));
    assert_eq!(entries[1], SidebarEntry::Tool("download"));
    assert_eq!(entries[2], SidebarEntry::Header(Category::Video));
    assert_eq!(entries[3], SidebarEntry::Tool("trim"));
    assert_eq!(entries[17], SidebarEntry::Tool("unzip"));
    let headers = entries.iter().filter(|e| matches!(e, SidebarEntry::Header(_))).count();
    assert_eq!(headers, 6);
}

#[test]
fn click_focus_counts_tool_items() {
    let entries = sidebar_entries();
    assert_eq!(focus_after_click(&entries, "download"), Some(0));
    assert_eq!(focus_after_click(&entries, "trim"), Some(1));
    assert_eq!(focus_after_click(&entries, "unzip"), Some(11));
    assert_eq!(focus_after_click(&entries, "nope"), None);
    let is_header: Vec<bool> = entries.iter().map(|e| matches!(e, SidebarEntry::Header(_))).collect();
    assert_eq!(focused_sidebar_item(&is_header, focus_after_click(&entries, "trim")), Some(3));
}
