use animstudio::palette::{CharacterPalette, Palettes};

#[test]
fn number_keys_arm_the_active_characters_pots() {
    let mut p = Palettes { characters: Vec::new() };
    assert_eq!(p.pot(0, 0), None);
    p.characters.push(CharacterPalette::new("Aoi".to_string()));
    p.characters.push(CharacterPalette::new("Ren".to_string()));
    assert_eq!(p.pot(0, 1), Some(([96, 112, 192, 255], "pot: Aoi \u{b7} shadow".to_string())));
    assert_eq!(p.pot(7, 2), Some(([255, 233, 168, 255], "pot: Ren \u{b7} highlight".to_string())));
    assert_eq!(p.pot(1, 3), None);
}
