use tract_linalg::suite::{ignore_conv, ignore_onnx, str_contains, str_eq, str_starts_with};

fn path(parts: &[&str]) -> Vec<String> {
    parts.iter().map(|s| s.to_string()).collect()
}

#[test]
fn onnx_cases_selected_by_fragment() {
    assert!(!ignore_onnx(&path(&["node", "test_basic_conv_with_padding"])));
    assert!(!ignore_onnx(&path(&["node", "test_flatten_axis0"])));
    assert!(!ignore_onnx(&path(&["pytorch", "test_Conv2d"])));
    assert!(ignore_onnx(&path(&["node", "test_add"])));
}

#[test]
fn onnx_excluded_names_skipped() {
    assert!(ignore_onnx(&path(&["pytorch", "test_Conv2d_groups"])));
    assert!(ignore_onnx(&path(&["node", "test_reshape_allowzero_reordered"])));
    // exclusion is by whole name
    assert!(!ignore_onnx(&path(&["pytorch", "test_Conv2d_groups_extra"])));
}

#[test]
fn conv_cases_skipped() {
    assert!(ignore_conv(&path(&["q", "anything"])));
    assert!(ignore_conv(&path(&["deconv", "x"])));
    assert!(ignore_conv(&path(&["conv", "group_0"])));
    assert!(ignore_conv(&path(&["conv", "lazy_im2col_big_2"])));
    assert!(!ignore_conv(&path(&["conv", "lazy_im2col"])));
    assert!(!ignore_conv(&path(&["conv", "bias_3d_2"])));
    assert!(!ignore_conv(&path(&["q"])));
    assert!(!ignore_conv(&path(&["q", "a", "b"])));
}

#[test]
fn string_helpers() {
    assert!(str_contains("abcabd", "abd"));
    assert!(!str_contains("abcab", "abd"));
    assert!(str_contains("abc", ""));
    assert!(str_eq("héllo", "héllo"));
    assert!(!str_eq("hello", "hell"));
    assert!(str_starts_with("groupwise", "group"));
    assert!(!str_starts_with("gro", "group"));
}
