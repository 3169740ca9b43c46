use content_renamer::paths::shown_file_name;

#[test]
fn shows_the_last_name_of_a_path() {
    assert_eq!(shown_file_name("song.mp3"), "song.mp3");
    assert_eq!(shown_file_name("/music/song.mp3"), "song.mp3");
    assert_eq!(shown_file_name("music/song.mp3/./"), "song.mp3");
    assert_eq!(shown_file_name("//server/share/song.mp3"), "song.mp3");
    assert_eq!(shown_file_name("music/.mp3"), ".mp3");
    assert_eq!(shown_file_name("./曲"), "曲");
}

#[test]
fn shows_the_path_where_it_has_no_name() {
    assert_eq!(shown_file_name("music/.."), "music/..");
    assert_eq!(shown_file_name("/"), "/");
    assert_eq!(shown_file_name("./"), "./");
    assert_eq!(shown_file_name(""), "");
}
