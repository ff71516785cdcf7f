use tokimono::config::{
    config_path_from, hex, preset_named, preset_theme, resolve_config, Color, Config, RawConfig, Theme, DEFAULT_TICK_MS,
    MIN_TICK_MS,
};

#[test]
fn known_presets_resolve() {
    for name in [
        "catppuccin-mocha",
        "catppuccin-macchiato",
        "catppuccin-frappe",
        "catppuccin-latte",
        "gruvbox-dark",
        "gruvbox-light",
    ] {
        assert!(preset_theme(name).is_some(), "{name} should resolve");
    }
}

#[test]
fn bare_family_names_alias_to_a_default_flavor() {
    assert!(preset_theme("catppuccin").is_some());
    assert!(preset_theme("gruvbox").is_some());
}

#[test]
fn preset_lookup_is_case_insensitive() {
    assert!(preset_theme("CATPPUCCIN-MOCHA").is_some());
    assert!(preset_theme("Gruvbox-Dark").is_some());
}

#[test]
fn unknown_preset_returns_none() {
    assert!(preset_theme("not-a-real-theme").is_none());
}

#[test]
fn presets_never_override_the_transparent_background_default() {
    for name in ["catppuccin-mocha", "gruvbox-dark", "gruvbox-light"] {
        let theme = preset_theme(name).unwrap();
        assert_eq!(theme.background, Color::Reset);
    }
}

#[test]
fn catppuccin_mocha_uses_documented_accent_color() {
    let theme = preset_theme("catppuccin-mocha").unwrap();
    assert_eq!(theme.accent, hex(0xcba6f7));
}

#[test]
fn hex_splits_into_rgb_bytes() {
    assert_eq!(hex(0xcba6f7), Color::Rgb(0xcb, 0xa6, 0xf7));
    assert_eq!(hex(0x000000), Color::Rgb(0, 0, 0));
    assert_eq!(hex(0xff01ab), Color::Rgb(0xff, 0x01, 0xab));
    assert_eq!(hex(0x12ffffff), Color::Rgb(0xff, 0xff, 0xff));
}

#[test]
fn family_aliases_match_their_default_flavors() {
    assert_eq!(preset_theme("catppuccin"), preset_theme("catppuccin-mocha"));
    assert_eq!(preset_theme("gruvbox"), preset_theme("gruvbox-dark"));
    assert_eq!(preset_theme("catppuccin-frappé"), preset_theme("catppuccin-frappe"));
    assert_eq!(preset_theme("CATPPUCCIN-FRAPPÉ"), preset_theme("catppuccin-frappe"));
}

#[test]
fn gruvbox_light_palette() {
    let t = preset_theme("gruvbox-light").unwrap();
    assert_eq!(t.accent, hex(0xaf3a03));
    assert_eq!(t.cpu_high, hex(0x9d0006));
    assert_eq!(t.selection_fg, hex(0x3c3836));
}

#[test]
fn default_theme_is_transparent_dark() {
    let t = Theme::default();
    assert_eq!(t.background, Color::Reset);
    assert_eq!(t.accent, Color::Cyan);
    assert_eq!(t.cpu_low, Color::Green);
    assert_eq!(t.cpu_mid, Color::Yellow);
    assert_eq!(t.cpu_high, Color::Red);
    assert_eq!(t.muted, Color::DarkGray);
    assert_eq!(t.selection_bg, Color::Blue);
    assert_eq!(t.selection_fg, Color::White);
    let c = Config::default();
    assert_eq!(c.tick_rate_ms, DEFAULT_TICK_MS);
    assert_eq!(c.theme, t);
}

#[test]
fn empty_file_resolves_to_defaults() {
    let (config, unknown) = resolve_config(&RawConfig::empty());
    assert_eq!(config, Config::default());
    assert!(!unknown);
}

#[test]
fn refresh_rate_is_raised_to_the_minimum() {
    let mut raw = RawConfig::empty();
    raw.general.refresh_rate_ms = Some(10);
    assert_eq!(resolve_config(&raw).0.tick_rate_ms, MIN_TICK_MS);
    raw.general.refresh_rate_ms = Some(50);
    assert_eq!(resolve_config(&raw).0.tick_rate_ms, 50);
    raw.general.refresh_rate_ms = Some(1000);
    assert_eq!(resolve_config(&raw).0.tick_rate_ms, 1000);
}

#[test]
fn explicit_colors_override_the_preset() {
    let mut raw = RawConfig::empty();
    raw.theme.preset = Some("Gruvbox".to_string());
    raw.theme.accent = Some(Color::Magenta);
    raw.theme.background = Some(Color::Black);
    let (config, unknown) = resolve_config(&raw);
    assert!(!unknown);
    let gruvbox = preset_theme("gruvbox-dark").unwrap();
    assert_eq!(config.theme.accent, Color::Magenta);
    assert_eq!(config.theme.background, Color::Black);
    assert_eq!(config.theme.cpu_low, gruvbox.cpu_low);
    assert_eq!(config.theme.muted, gruvbox.muted);
}

#[test]
fn unknown_preset_falls_back_to_default_and_is_reported() {
    let mut raw = RawConfig::empty();
    raw.theme.preset = Some("solarized".to_string());
    raw.theme.cpu_high = Some(Color::Indexed(196));
    let (config, unknown) = resolve_config(&raw);
    assert!(unknown);
    assert_eq!(config.theme.cpu_high, Color::Indexed(196));
    assert_eq!(config.theme.accent, Theme::default().accent);
}

#[test]
fn config_path_prefers_xdg_config_home() {
    assert_eq!(
        config_path_from(Some("/xdg"), Some("/home/me")),
        "/xdg/tokimono/config.toml"
    );
    assert_eq!(
        config_path_from(Some("/xdg/"), None),
        "/xdg/tokimono/config.toml"
    );
}

#[test]
fn config_path_falls_back_to_home() {
    assert_eq!(
        config_path_from(Some(""), Some("/home/me")),
        "/home/me/.config/tokimono/config.toml"
    );
    assert_eq!(
        config_path_from(None, Some("/home/me")),
        "/home/me/.config/tokimono/config.toml"
    );
    assert_eq!(config_path_from(None, None), "./.config/tokimono/config.toml");
    assert_eq!(config_path_from(None, Some("")), ".config/tokimono/config.toml");
}

#[test]
fn preset_named_takes_the_lowercased_name() {
    assert_eq!(preset_named("gruvbox"), preset_theme("gruvbox-dark"));
    assert!(preset_named("Gruvbox").is_none());
    assert!(preset_named("").is_none());
}
