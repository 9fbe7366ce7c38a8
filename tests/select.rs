use rating_select::select::{
    filter_string, include_directory, is_allowed_lowercase, is_file_allowed, is_selected, is_video,
    is_video_lowercase, label_passes, passes_threshold, ComparisonCommand, Entry, FileCommand,
};

#[test]
fn entry_constructors() {
    let e = Entry::new("a/b.jpg".to_string());
    assert_eq!(e.path, "a/b.jpg");
    assert_eq!(e.raw_path, None);
    let r = Entry::new_with_raw("a/b.jpg".to_string(), "a/b.ARW".to_string());
    assert_eq!(r.raw_path, Some("a/b.ARW".to_string()));
}

#[test]
fn filter_string_excludes_substrings() {
    assert!(!filter_string("2023-trip-paris", vec!["trip".to_string()]));
    assert!(filter_string("2023-paris", vec!["trip".to_string(), "x".to_string()]));
    assert!(filter_string("anything", vec![]));
    assert!(!filter_string("abc", vec!["".to_string()]));
}

#[test]
fn video_extensions_in_any_case() {
    assert!(is_video("MOV"));
    assert!(is_video("Mp4"));
    assert!(is_video("avi"));
    assert!(!is_video("jpg"));
    assert!(!is_video(""));
    assert!(is_video_lowercase("mov"));
    assert!(!is_video_lowercase("MOV"));
}

#[test]
fn allowed_files() {
    assert!(is_file_allowed("IMG_1.JPG", "JPG", false));
    assert!(is_file_allowed("a.heic", "heic", false));
    assert!(!is_file_allowed(".hidden.jpg", "jpg", false));
    assert!(!is_file_allowed("clip.MOV", "MOV", false));
    assert!(is_file_allowed("clip.MOV", "MOV", true));
    assert!(!is_file_allowed("notes.txt", "txt", true));
    assert!(is_allowed_lowercase("png", false));
    assert!(!is_allowed_lowercase("PNG", false));
}

#[test]
fn threshold_comparisons() {
    assert!(passes_threshold(5, 5, ComparisonCommand::MoreEqual));
    assert!(!passes_threshold(4, 5, ComparisonCommand::MoreEqual));
    assert!(passes_threshold(4, 5, ComparisonCommand::LessEqual));
    assert!(!passes_threshold(6, 5, ComparisonCommand::LessEqual));
    assert!(passes_threshold(5, 5, ComparisonCommand::Equal));
    assert!(!passes_threshold(3, 5, ComparisonCommand::Equal));
    assert_eq!(ComparisonCommand::MoreEqual.name(), "more-equal");
    assert_eq!(ComparisonCommand::LessEqual.name(), "less-equal");
    assert_eq!(ComparisonCommand::Equal.name(), "equal");
}

#[test]
fn selection_with_label_and_inverse() {
    assert!(is_selected(5, 5, ComparisonCommand::MoreEqual, true, false));
    assert!(!is_selected(5, 5, ComparisonCommand::MoreEqual, false, false));
    assert!(is_selected(5, 5, ComparisonCommand::MoreEqual, false, true));
    assert!(!is_selected(5, 5, ComparisonCommand::MoreEqual, true, true));
    assert!(label_passes(&None, &None));
    assert!(label_passes(&Some("Red".to_string()), &Some("Red".to_string())));
    assert!(!label_passes(&Some("Red".to_string()), &Some("Blue".to_string())));
    assert!(!label_passes(&Some("Red".to_string()), &None));
}

#[test]
fn file_commands() {
    assert_eq!(FileCommand::Move.verb(), "Moving");
    assert_eq!(FileCommand::CopyRaws.verb(), "Copying raw file");
    assert!(FileCommand::Move.requires_destination());
    assert!(FileCommand::Copy.requires_destination());
    assert!(FileCommand::CopyRaws.requires_destination());
    assert!(!FileCommand::Delete.requires_destination());
    assert!(!FileCommand::Print.requires_destination());
    assert!(!FileCommand::DeleteRaws.requires_destination());
}

#[test]
fn directory_inclusion_rules() {
    let ex = vec!["skip".to_string()];
    assert!(include_directory("photos", 0, ex.clone(), false));
    assert!(!include_directory("skip-me", 0, ex.clone(), false));
    assert!(include_directory("skip-me", 0, ex.clone(), true));
    assert!(!include_directory("photos", 0, ex.clone(), true));
    assert!(include_directory("skip-me", 2, ex.clone(), false));
    assert!(!include_directory(".git", 1, ex.clone(), false));
    assert!(!include_directory(".git", 0, vec![], false));
}
