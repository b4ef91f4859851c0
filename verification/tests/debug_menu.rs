use woodland::debug::{DebugFormatError, DebugMenu};
use woodland::world::world_generation::Biome;

#[test]
fn default_menu() {
    let m = DebugMenu::default();
    assert!(m.render);
    assert_eq!(m.ui_line_count, 0);
    assert!(!m.super_speed);
    assert_eq!(m.loaded_chunk_count, 0);
    assert_eq!(m.total_spawned_entites, 0);
    assert_eq!(m.current_biome, Biome::Forest);
}

#[test]
fn toggles() {
    let mut m = DebugMenu::default();
    assert_eq!(m.toggle_render(false), None);
    assert!(m.render);
    assert_eq!(m.toggle_render(true), Some(false));
    assert!(!m.render);
    assert_eq!(m.toggle_render(true), Some(true));
    m.toggle_super_speed(false);
    assert!(!m.super_speed);
    m.toggle_super_speed(true);
    assert!(m.super_speed);
    m.toggle_super_speed(true);
    assert!(!m.super_speed);
}

#[test]
fn lines_are_numbered_from_the_top() {
    let mut m = DebugMenu::default();
    assert_eq!(m.next_line(), 0);
    assert_eq!(m.next_line(), 1);
    assert_eq!(m.next_line(), 2);
    assert_eq!(m.ui_line_count, 3);
}

#[test]
fn value_lines_are_formatted() {
    let mut m = DebugMenu::default();
    m.loaded_chunk_count = 5;
    m.total_spawned_entites = 42;
    assert_eq!(
        m.debug_text_value("loaded_chunk_count", "Loaded chunks: {}", "0.0, 0.0, 0.0"),
        Ok(Some("Loaded chunks: 5".to_string()))
    );
    assert_eq!(
        m.debug_text_value("total_entity_count", "Entities: {}", "0.0, 0.0, 0.0"),
        Ok(Some("Entities: 42".to_string()))
    );
    assert_eq!(
        m.debug_text_value("player_position", "Position: {}", "1.5, -2.0, 0.0"),
        Ok(Some("Position: 1.5, -2.0, 0.0".to_string()))
    );
}

#[test]
fn other_lines_are_left_alone() {
    let m = DebugMenu::default();
    assert_eq!(m.debug_text_value("fps", "FPS: {}", ""), Ok(None));
}

#[test]
fn template_without_placeholder_is_kept() {
    let m = DebugMenu::default();
    assert_eq!(m.debug_text_value("loaded_chunk_count", "chunks", ""), Ok(Some("chunks".to_string())));
}

#[test]
fn bad_template_is_an_error() {
    let m = DebugMenu::default();
    assert_eq!(m.debug_text_value("loaded_chunk_count", "{1}", ""), Err(DebugFormatError));
    assert_eq!(m.debug_text_value("player_position", "{name}", "1, 2, 3"), Err(DebugFormatError));
}
