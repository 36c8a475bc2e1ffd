use hexmap::theme::Theme;

#[test]
fn theme_colors() {
    assert_eq!(Theme::Background.u32(), 0x26233a);
    assert_eq!(Theme::Pillar.u32(), 0x26233a);
    assert_eq!(Theme::Text.u32(), 0xc5c9c5);
    assert_eq!(Theme::Red.u32(), 0xC34043);
    assert_eq!(Theme::Violet.u32(), 0x624c83);
    assert_eq!(Theme::HighLight1.u32(), 0xE46876);
}

#[test]
fn theme_from_str() {
    assert_eq!(Theme::from_str("Red"), Ok(Theme::Red));
    assert_eq!(Theme::from_str("Indigo"), Ok(Theme::Indigo));
    assert_eq!(Theme::from_str("Brown"), Ok(Theme::Brown));
    let err = Theme::from_str("Background").unwrap_err();
    assert_eq!(err.name, "Background");
    assert!(Theme::from_str("red").is_err());
    assert!(Theme::from_str("").is_err());
}
