use liteexif::listing::{list_page, template_names, DirEntry, EntryKind};

fn entry(name: &str, kind: EntryKind, modified: Option<(i64, u32)>) -> DirEntry {
    DirEntry {
        name: name.to_owned(),
        path: format!("/base/{name}"),
        kind,
        modified,
    }
}

fn sample() -> Vec<DirEntry> {
    let mut entries = Vec::new();
    for index in 0..5 {
        entries.push(entry(&format!("top{index}.jpg"), EntryKind::File, Some((100 + index, 0))));
    }
    entries.push(entry("album", EntryKind::Directory, Some((1, 0))));
    entries.push(entry("notes.txt", EntryKind::File, Some((500, 0))));
    entries
}

#[test]
fn directory_pages_split_the_listing() {
    let suffixes = vec![".jpg".to_owned()];
    let (first, has_more) = list_page(sample(), &suffixes, 0, 3);
    assert_eq!(first.len(), 3);
    assert!(has_more);
    assert!(first.iter().all(|node| node.children.is_none()));
    let (second, has_more) = list_page(sample(), &suffixes, 3, 3);
    assert!(!has_more);
    assert_eq!(first.len() + second.len(), 6);
    assert_eq!(first[0].label, "album");
    assert_eq!(first[0].is_file, None);
    assert_eq!(first[1].label, "top4.jpg");
    assert_eq!(first[1].is_file, Some(true));
    assert_eq!(first[1].value, "/base/top4.jpg");
    assert_eq!(second[2].label, "top0.jpg");
}

#[test]
fn listing_skips_hidden_links_and_other_suffixes() {
    let entries = vec![
        entry(".hidden.jpg", EntryKind::File, None),
        entry("link.jpg", EntryKind::Other, None),
        entry("photo.JPG", EntryKind::File, None),
        entry("raw.nef", EntryKind::File, None),
        entry("README", EntryKind::File, None),
    ];
    let suffixes = vec![".jpg".to_owned(), ".nef".to_owned()];
    let (page, has_more) = list_page(entries, &suffixes, 0, 10);
    assert!(!has_more);
    let labels: Vec<&str> = page.iter().map(|node| node.label.as_str()).collect();
    assert_eq!(labels, vec!["raw.nef", "photo.JPG"]);
}

#[test]
fn directories_sort_by_lowercase_name_descending() {
    let entries = vec![
        entry("b", EntryKind::Directory, None),
        entry("C", EntryKind::Directory, None),
        entry("a", EntryKind::Directory, None),
    ];
    let (page, _) = list_page(entries, &Vec::new(), 0, 10);
    let labels: Vec<&str> = page.iter().map(|node| node.label.as_str()).collect();
    assert_eq!(labels, vec!["C", "b", "a"]);
}

#[test]
fn files_sort_newest_first_then_by_name() {
    let entries = vec![
        entry("a.jpg", EntryKind::File, Some((10, 5))),
        entry("b.jpg", EntryKind::File, Some((10, 5))),
        entry("c.jpg", EntryKind::File, None),
        entry("d.jpg", EntryKind::File, Some((20, 0))),
    ];
    let (page, _) = list_page(entries, &vec![".jpg".to_owned()], 0, 10);
    let labels: Vec<&str> = page.iter().map(|node| node.label.as_str()).collect();
    assert_eq!(labels, vec!["d.jpg", "b.jpg", "a.jpg", "c.jpg"]);
}

#[test]
fn a_page_past_the_end_is_empty() {
    let (page, has_more) = list_page(sample(), &vec![".jpg".to_owned()], 50, 3);
    assert!(page.is_empty());
    assert!(!has_more);
    let (page, has_more) = list_page(sample(), &vec![".jpg".to_owned()], 0, 0);
    assert!(page.is_empty());
    assert!(has_more);
}

#[test]
fn template_names_are_json_stems_in_order() {
    let names = vec![
        "标准水印.json".to_owned(),
        "背景模糊.JSON".to_owned(),
        "notes.txt".to_owned(),
        ".json".to_owned(),
        "logo居中.json".to_owned(),
        "a.b.json".to_owned(),
    ];
    let out = template_names(&names);
    assert_eq!(out, vec!["a.b", "logo居中", "标准水印", "背景模糊"]);
}
