use gridx2::entry::{prepare_scan, should_process, DirEntry, ScanError, WalkEntry};
use gridx2::paths::{count_depth, get_relative_path, is_image, parent_dir, str_eq, to_absolute};
use gridx2::sorting::{sort_dir_entries, sort_image_entries};

fn file(path: &str) -> WalkEntry {
    WalkEntry { path: path.to_string(), is_dir: false }
}

fn dir(path: &str) -> WalkEntry {
    WalkEntry { path: path.to_string(), is_dir: true }
}

#[test]
fn count_depth_counts_separators() {
    assert_eq!(count_depth("/a/b/c.png"), 3);
    assert_eq!(count_depth("/"), 1);
    assert_eq!(count_depth("abc"), 0);
    assert_eq!(count_depth(""), 0);
}

#[test]
fn is_image_matches_supported_extensions_exactly() {
    assert!(is_image("photo.jpg"));
    assert!(is_image("photo.png"));
    assert!(is_image("a/b/c.jpeg"));
    assert!(!is_image("photo.PNG"));
    assert!(!is_image("photo.JPG"));
    assert!(!is_image("noext"));
    assert!(!is_image("/x/.png"));
    assert!(!is_image("archive.png.bak"));
    assert!(!is_image("photo.gif"));
    assert!(!is_image(""));
}

#[test]
fn parent_dir_cases() {
    assert_eq!(parent_dir("/a/b.png"), Some("/a".to_string()));
    assert_eq!(parent_dir("/f.png"), Some("/".to_string()));
    assert_eq!(parent_dir("noslash"), None);
    assert_eq!(parent_dir("/"), None);
}

#[test]
fn str_eq_compares_by_content() {
    assert!(str_eq("abc", "abc"));
    assert!(!str_eq("abc", "abd"));
    assert!(!str_eq("abc", "ab"));
    assert!(str_eq("", ""));
}

#[test]
fn should_process_prunes_by_depth_and_extension() {
    // bound 3: depth(/root) = 1 plus a relative depth of 2
    assert!(should_process("/root", true, 3));
    assert!(should_process("/root/a", true, 3));
    assert!(should_process("/root/a/img1.jpg", false, 3));
    assert!(!should_process("/root/a/b/c", true, 3));
    assert!(!should_process("/root/a/b/deep.jpg", false, 3));
    assert!(!should_process("/root/a/readme.txt", false, 3));
}

#[test]
fn scan_groups_images_by_folder() {
    // root/a/img1.jpg, root/a/img2.jpg, root/b/readme.txt with depth bound 2
    let entries = vec![
        dir("/root"),
        dir("/root/a"),
        file("/root/a/img1.jpg"),
        file("/root/a/img2.jpg"),
        dir("/root/b"),
        file("/root/b/readme.txt"),
    ];
    let bound = count_depth("/root") + 2;
    let recs = DirEntry::search(&entries, bound).unwrap();
    assert_eq!(recs.len(), 1);
    assert_eq!(recs[0].dir_path, "/root/a");
    assert_eq!(recs[0].image_entries.len(), 2);
    assert_eq!(recs[0].image_entries[0].image_path, "/root/a/img1.jpg");
    assert_eq!(recs[0].image_entries[1].image_path, "/root/a/img2.jpg");
}

#[test]
fn scan_end_to_end_in_natural_order() {
    let entries = vec![
        dir("/root"),
        dir("/root/a"),
        file("/root/a/img2.jpg"),
        file("/root/a/img1.jpg"),
        dir("/root/b"),
        file("/root/b/readme.txt"),
    ];
    let bound = count_depth("/root") + 2;
    let recs = DirEntry::search(&entries, bound).unwrap();
    assert_eq!(recs.len(), 1);
    let mut images = Vec::new();
    for e in &recs[0].image_entries {
        images.push(gridx2::image_entry::ImageEntry { image_path: e.image_path.clone(), image: None });
    }
    sort_image_entries(&mut images);
    assert_eq!(images.len(), 2);
    assert_eq!(images[0].image_path, "/root/a/img1.jpg");
    assert_eq!(images[1].image_path, "/root/a/img2.jpg");
}

#[test]
fn scan_excludes_files_beyond_depth_bound() {
    let entries = vec![
        dir("/root"),
        dir("/root/a"),
        file("/root/a/ok.png"),
        dir("/root/a/b"),
        file("/root/a/b/deep.png"),
    ];
    // bound 3 = depth(/root) + 2: keeps /root/a/ok.png, excludes the deeper file
    let recs = DirEntry::search(&entries, 3).unwrap();
    assert_eq!(recs.len(), 1);
    assert_eq!(recs[0].dir_path, "/root/a");
    assert_eq!(recs[0].image_entries.len(), 1);
    assert_eq!(recs[0].image_entries[0].image_path, "/root/a/ok.png");
}

#[test]
fn scan_drops_folders_without_qualifying_images() {
    let entries = vec![
        dir("/root"),
        dir("/root/onlydirs"),
        dir("/root/onlydirs/sub"),
        dir("/root/docs"),
        file("/root/docs/readme.txt"),
    ];
    let recs = DirEntry::search(&entries, 10).unwrap();
    assert!(recs.is_empty());
}

#[test]
fn scan_is_case_sensitive_about_extensions() {
    let entries = vec![dir("/r"), file("/r/a.PNG"), file("/r/b.png")];
    let recs = DirEntry::search(&entries, 10).unwrap();
    assert_eq!(recs.len(), 1);
    assert_eq!(recs[0].image_entries.len(), 1);
    assert_eq!(recs[0].image_entries[0].image_path, "/r/b.png");
}

#[test]
fn scan_thumbnails_start_absent() {
    let entries = vec![dir("/r"), file("/r/x.png")];
    let recs = DirEntry::search(&entries, 10).unwrap();
    assert_eq!(recs.len(), 1);
    assert!(recs[0].image_entries[0].image.is_none());
}

#[test]
fn scan_fails_when_a_file_has_no_parent() {
    let entries = vec![file("orphan.png")];
    let r = DirEntry::search(&entries, 10);
    assert!(matches!(r, Err(ScanError::MissingParent)));
}

#[test]
fn prepare_scan_rejects_empty_root() {
    assert!(matches!(prepare_scan("", 2), Err(ScanError::RootNotResolved)));
}

#[test]
fn prepare_scan_resolves_absolute_root() {
    let (abs, bound) = prepare_scan("/", 2).unwrap();
    assert_eq!(abs, "/");
    assert_eq!(bound, count_depth("/") + 2);
}

#[test]
fn to_absolute_rejects_empty_path() {
    assert!(to_absolute("").is_none());
    assert!(to_absolute("/etc").is_some());
}

#[test]
fn relative_path_cases() {
    assert_eq!(get_relative_path("/a", "/a"), Some(".".to_string()));
    assert_eq!(get_relative_path("/a", "/a/b/c"), Some("b/c".to_string()));
    assert_eq!(get_relative_path("/", "/x"), Some("x".to_string()));
    assert_eq!(get_relative_path("/a", "/ab"), None);
    assert_eq!(get_relative_path("/a/b", "/a"), None);
}

#[test]
fn dir_entries_sort_lexicographically() {
    let entries = vec![
        dir("/root"),
        dir("/root/b"),
        file("/root/b/x.png"),
        dir("/root/a"),
        file("/root/a/y.png"),
        dir("/root/a/c"),
        file("/root/a/c/z.png"),
    ];
    let mut recs = DirEntry::search(&entries, 10).unwrap();
    sort_dir_entries(&mut recs);
    let paths: Vec<&str> = recs.iter().map(|r| r.dir_path.as_str()).collect();
    assert_eq!(paths, vec!["/root/a", "/root/a/c", "/root/b"]);
}
