use applesauce::path::truncate_path;

fn truncated(path: &str, width: usize) -> String {
    String::from_utf8(truncate_path(path.as_bytes(), width)).unwrap()
}

fn check_minimal_truncate() {
    let orig_path = "abcd";
    // Trying to truncate smaller than a single segment does nothing
    assert_eq!(truncated(orig_path, 1), "abcd");

    let orig_path = "1234/5678";
    // Trying to truncate removes the first element
    assert_eq!(truncated(orig_path, 1), "…/5678");
    let orig_path = "/1234/5678";
    // Never truncate the leading /
    assert_eq!(truncated(orig_path, 1), "/…/5678");

    let orig_path = "/1234/5678";
    assert_eq!(truncated(orig_path, 1), "/…/5678");

    let orig_path = "/1234/5678/90123/4567";
    assert_eq!(truncated(orig_path, 1), "/…/4567");
}

fn check_no_truncation() {
    let orig_path = "abcd";
    assert_eq!(truncated(orig_path, 4), orig_path);

    let orig_path = "a/b/c/d";
    assert_eq!(truncated(orig_path, 7), orig_path);
    let orig_path = "/a/b/c/d";
    assert_eq!(truncated(orig_path, 8), orig_path);
}

fn check_truncate_single_segment() {
    let orig_path = "a/bbbbbbbbbb/c";
    assert_eq!(truncated(orig_path, 5), "a/…/c");
}

#[test]
fn main_minimal_truncate() {
    check_minimal_truncate();
}

#[test]
fn main_no_truncation() {
    check_no_truncation();
}

#[test]
fn main_truncate_single_segment() {
    check_truncate_single_segment();
}

#[test]
fn path_minimal_truncate() {
    check_minimal_truncate();
}

#[test]
fn path_no_truncation() {
    check_no_truncation();
}

#[test]
fn path_truncate_single_segment() {
    check_truncate_single_segment();
}

#[test]
fn truncate_removes_middle_first() {
    // Five components: the middle one goes first, then the one before it.
    assert_eq!(truncated("aa/bb/cc/dd/ee", 14), "aa/bb/cc/dd/ee");
    assert_eq!(truncated("aa/bb/cc/dd/ee", 13), "aa/bb/…/dd/ee");
    assert_eq!(truncated("aa/bb/cc/dd/ee", 12), "aa/…/dd/ee");
    assert_eq!(truncated("aa/bb/cc/dd/ee", 10), "aa/…/dd/ee");
    assert_eq!(truncated("aa/bb/cc/dd/ee", 9), "aa/…/ee");
}

#[test]
fn truncate_normalizes_components() {
    // Redundant slashes and `.` parts are not components.
    assert_eq!(truncated("a//b/./c/", 3), "…/c");
    assert_eq!(truncated("./x/y", 1), "…/y");
}

#[test]
fn path_components() {
    let comps = applesauce::path::components(b"/usr//local/./bin/");
    assert_eq!(comps, vec![b"/".to_vec(), b"usr".to_vec(), b"local".to_vec(), b"bin".to_vec()]);
    let comps = applesauce::path::components(b"./a/..");
    assert_eq!(comps, vec![b".".to_vec(), b"a".to_vec(), b"..".to_vec()]);
}
