use track_overlay::merge::concat_list;

#[test]
fn concat_list_names_both_clips_in_order() {
    assert_eq!(
        concat_list("/videos/a.mp4", "/videos/b.mp4"),
        "file '/videos/a.mp4'\nfile '/videos/b.mp4'\n"
    );
}

#[test]
fn concat_list_escapes_quotes_and_backslashes() {
    assert_eq!(
        concat_list("C:\\clips\\one.mp4", "/tmp/it's.mp4"),
        "file 'C:/clips/one.mp4'\nfile '/tmp/it'\\''s.mp4'\n"
    );
}

#[test]
fn concat_list_of_empty_paths() {
    assert_eq!(concat_list("", ""), "file ''\nfile ''\n");
}
