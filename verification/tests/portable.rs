use osap_host::portable::{bundle_parent, strip_bundle};
use std::path::{Path, PathBuf};

#[test]
fn a_bundle_resolves_to_the_folder_holding_the_app() {
    let inside = PathBuf::from("/Users/t/Desktop/AutomationPlatform.app/Contents/MacOS");
    assert_eq!(strip_bundle(&inside), Some(PathBuf::from("/Users/t/Desktop")));
}

#[test]
fn a_plain_directory_is_left_alone() {
    assert_eq!(strip_bundle(Path::new("C:/tools/platform")), None);
    assert_eq!(strip_bundle(Path::new("/usr/local/bin")), None);
}

#[test]
fn a_near_miss_is_not_a_bundle() {
    assert_eq!(strip_bundle(Path::new("/x/Thing.app/Resources/MacOS")), None);
    assert_eq!(strip_bundle(Path::new("/x/Thing/Contents/MacOS")), None);
    assert_eq!(strip_bundle(Path::new("/x/Thing.app/Contents/Frameworks")), None);
}

#[test]
fn the_names_decide_the_bundle() {
    let outer = Some(PathBuf::from("/Users/t"));
    assert_eq!(bundle_parent(Some("MacOS"), Some("Contents"), Some("app"), outer.clone()), outer);
    assert_eq!(bundle_parent(Some("MacOS"), Some("Contents"), Some("App"), outer.clone()), None);
    assert_eq!(bundle_parent(Some("MacOS"), Some("Resources"), Some("app"), outer.clone()), None);
    assert_eq!(bundle_parent(Some("bin"), Some("Contents"), Some("app"), outer.clone()), None);
    assert_eq!(bundle_parent(Some("MacOS"), None, Some("app"), outer.clone()), None);
    assert_eq!(bundle_parent(Some("MacOS"), Some("Contents"), None, outer), None);
}
