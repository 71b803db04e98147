use soul_symphony_ling::names::{game_sources, glyph_index, join_sources, song_name};

#[test]
fn song_name_strips_data_suffix() {
    assert_eq!(song_name("intro_data"), "intro");
    assert_eq!(song_name("Whisper"), "Whisper");
}

#[test]
fn song_name_strips_every_trailing_suffix() {
    assert_eq!(song_name("x_data_data"), "x");
    assert_eq!(song_name("_data"), "");
}

#[test]
fn song_name_keeps_other_endings() {
    assert_eq!(song_name("data"), "data");
    assert_eq!(song_name("my_dat"), "my_dat");
    assert_eq!(song_name("a_data_b"), "a_data_b");
    assert_eq!(song_name("เพลง_data"), "เพลง");
}

#[test]
fn sources_load_in_declaration_order() {
    assert_eq!(
        game_sources(),
        vec!["color.ling", "shape.ling", "audio.ling", "title.ling", "play.ling", "main.ling"]
    );
}

#[test]
fn sources_are_joined_with_newlines() {
    let parts = vec!["a = 1".to_string(), String::new(), "b".to_string()];
    assert_eq!(join_sources(&parts), "a = 1\n\nb\n");
    assert_eq!(join_sources(&vec![]), "");
}

#[test]
fn letters_index_the_alphabet() {
    assert_eq!(glyph_index('a'), 0);
    assert_eq!(glyph_index('m'), 12);
    assert_eq!(glyph_index('z'), 25);
}
