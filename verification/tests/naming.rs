use batch_transcode::naming::thumbnail_output_path;
use batch_transcode::naming::transcode_output_path;

#[test]
fn transcode_path_replaces_extension() {
    assert_eq!(transcode_output_path("a/b/clip.mov"), "a/b/clip.compressed.mp4");
}

#[test]
fn transcode_path_without_extension_appends_suffix() {
    assert_eq!(transcode_output_path("a/b/clip"), "a/b/clip.compressed.mp4");
}

#[test]
fn thumbnail_path_replaces_extension() {
    assert_eq!(thumbnail_output_path("clip.mov"), "clip.thumbnail.jpg");
}

#[test]
fn thumbnail_path_in_directory() {
    assert_eq!(thumbnail_output_path("a/b/clip.mov"), "a/b/clip.thumbnail.jpg");
}

#[test]
fn hidden_file_keeps_its_name() {
    assert_eq!(transcode_output_path(".bashrc"), ".bashrc.compressed.mp4");
}

#[test]
fn only_final_extension_is_replaced() {
    assert_eq!(transcode_output_path("a.b.c"), "a.b.compressed.mp4");
}

#[test]
fn dot_in_directory_is_not_an_extension() {
    assert_eq!(transcode_output_path("a.b/clip"), "a.b/clip.compressed.mp4");
}

#[test]
fn trailing_dot_is_an_empty_extension() {
    assert_eq!(transcode_output_path("clip."), "clip.compressed.mp4");
}

#[test]
fn derived_path_never_equals_source() {
    assert_eq!(transcode_output_path("x.compressed.mp4"), "x.compressed.compressed.mp4");
}

#[test]
fn bare_name_gets_suffix() {
    assert_eq!(transcode_output_path("clip.mov"), "clip.compressed.mp4");
}
