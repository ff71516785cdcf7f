//! Colors, the built-in theme presets, and the resolution of a parsed
//! configuration file into the settings the application runs with.
use vstd::prelude::*;
use crate::text::{chars_equal, chars_of, lowercase, push_str, string_from_chars, to_lowercase};

verus! {

/// The refresh interval when the configuration names none, in milliseconds.
pub const DEFAULT_TICK_MS: u64 = 250;
/// The shortest refresh interval a configuration may ask for.
pub const MIN_TICK_MS: u64 = 50;

/// A terminal color: a named ANSI color, an indexed palette entry, or
/// 24-bit RGB; `Reset` leaves the terminal's own color in place.
#[derive(Clone, Copy, Debug, PartialEq, Eq, Structural)]
pub enum Color {
    Reset,
    Black,
    Red,
    Green,
    Yellow,
    Blue,
    Magenta,
    Cyan,
    Gray,
    DarkGray,
    LightRed,
    LightGreen,
    LightYellow,
    LightBlue,
    LightMagenta,
    LightCyan,
    White,
    Rgb(u8, u8, u8),
    Indexed(u8),
}

/// Resolved color palette. Defaults to a dark theme that never paints an
/// opaque background, so a transparent/blurred terminal background shows
/// through unless `background` is set explicitly.
#[derive(Clone, Copy, Debug, PartialEq, Eq, Structural)]
pub struct Theme {
    pub background: Color,
    pub accent: Color,
    pub cpu_low: Color,
    pub cpu_mid: Color,
    pub cpu_high: Color,
    pub muted: Color,
    pub selection_bg: Color,
    pub selection_fg: Color,
}

pub open spec fn default_theme() -> Theme {
    Theme {
        background: Color::Reset,
        accent: Color::Cyan,
        cpu_low: Color::Green,
        cpu_mid: Color::Yellow,
        cpu_high: Color::Red,
        muted: Color::DarkGray,
        selection_bg: Color::Blue,
        selection_fg: Color::White,
    }
}

impl Default for Theme {
    fn default() -> (res: Self)
        ensures
            res == default_theme(),
    {
        Theme {
            background: Color::Reset,
            accent: Color::Cyan,
            cpu_low: Color::Green,
            cpu_mid: Color::Yellow,
            cpu_high: Color::Red,
            muted: Color::DarkGray,
            selection_bg: Color::Blue,
            selection_fg: Color::White,
        }
    }
}

/// The RGB color written `0xRRGGBB`.
pub open spec fn hex_color(rgb: u32) -> Color {
    Color::Rgb((rgb / 0x10000 % 0x100) as u8, (rgb / 0x100 % 0x100) as u8, (rgb % 0x100) as u8)
}

/// The RGB color written `0xRRGGBB` (bits above the lowest 24 are ignored).
pub fn hex(rgb: u32) -> (res: Color)
    ensures
        res == hex_color(rgb),
{
    assert((rgb >> 16) as u8 == (rgb / 0x10000 % 0x100) as u8) by (bit_vector);
    assert((rgb >> 8) as u8 == (rgb / 0x100 % 0x100) as u8) by (bit_vector);
    assert(rgb as u8 == (rgb % 0x100) as u8) by (bit_vector);
    Color::Rgb((rgb >> 16) as u8, (rgb >> 8) as u8, rgb as u8)
}

pub open spec fn palette(
    accent: u32,
    cpu_low: u32,
    cpu_mid: u32,
    cpu_high: u32,
    muted: u32,
    selection_bg: u32,
    selection_fg: u32,
) -> Theme {
    Theme {
        background: Color::Reset,
        accent: hex_color(accent),
        cpu_low: hex_color(cpu_low),
        cpu_mid: hex_color(cpu_mid),
        cpu_high: hex_color(cpu_high),
        muted: hex_color(muted),
        selection_bg: hex_color(selection_bg),
        selection_fg: hex_color(selection_fg),
    }
}

fn palette_exec(
    accent: u32,
    cpu_low: u32,
    cpu_mid: u32,
    cpu_high: u32,
    muted: u32,
    selection_bg: u32,
    selection_fg: u32,
) -> (res: Theme)
    ensures
        res == palette(accent, cpu_low, cpu_mid, cpu_high, muted, selection_bg, selection_fg),
{
    Theme {
        background: Color::Reset,
        accent: hex(accent),
        cpu_low: hex(cpu_low),
        cpu_mid: hex(cpu_mid),
        cpu_high: hex(cpu_high),
        muted: hex(muted),
        selection_bg: hex(selection_bg),
        selection_fg: hex(selection_fg),
    }
}

/// Catppuccin Mocha: Mauve, Green, Yellow, Red, Overlay0, Surface2, Text.
pub open spec fn catppuccin_mocha() -> Theme {
    palette(0xcba6f7, 0xa6e3a1, 0xf9e2af, 0xf38ba8, 0x6c7086, 0x585b70, 0xcdd6f4)
}

pub open spec fn catppuccin_macchiato() -> Theme {
    palette(0xc6a0f6, 0xa6da95, 0xeed49f, 0xed8796, 0x6e738d, 0x494d64, 0xcad3f5)
}

pub open spec fn catppuccin_frappe() -> Theme {
    palette(0xca9ee6, 0xa6d189, 0xe5c890, 0xe78284, 0x737994, 0x51576d, 0xc6d0f5)
}

pub open spec fn catppuccin_latte() -> Theme {
    palette(0x8839ef, 0x40a02b, 0xdf8e1d, 0xd20f39, 0x9ca0b0, 0xbcc0cc, 0x4c4f69)
}

/// Gruvbox dark: bright orange, green, yellow, red; gray; bg2; fg1.
pub open spec fn gruvbox_dark() -> Theme {
    palette(0xfe8019, 0xb8bb26, 0xfabd2f, 0xfb4934, 0x928374, 0x504945, 0xebdbb2)
}

/// Gruvbox light: faded orange, green, yellow, red; gray; bg2; fg1.
pub open spec fn gruvbox_light() -> Theme {
    palette(0xaf3a03, 0x79740e, 0xb57614, 0x9d0006, 0x928374, 0xd5c4a1, 0x3c3836)
}

/// The preset named `name` (already lowercased): bare family names alias
/// to a default flavor.
pub open spec fn preset_for(name: Seq<char>) -> Option<Theme> {
    if name == "catppuccin"@ || name == "catppuccin-mocha"@ {
        Some(catppuccin_mocha())
    } else if name == "catppuccin-macchiato"@ {
        Some(catppuccin_macchiato())
    } else if name == "catppuccin-frappe"@ || name == "catppuccin-frappé"@ {
        Some(catppuccin_frappe())
    } else if name == "catppuccin-latte"@ {
        Some(catppuccin_latte())
    } else if name == "gruvbox"@ || name == "gruvbox-dark"@ {
        Some(gruvbox_dark())
    } else if name == "gruvbox-light"@ {
        Some(gruvbox_light())
    } else {
        None
    }
}

/// Named built-in palettes, looked up case-insensitively. `background` is
/// always `Color::Reset` here: a preset picks the accent/status colors, not
/// whether an opaque panel is painted.
pub fn preset_theme(name: &str) -> (res: Option<Theme>)
    ensures
        res == preset_for(lowercase(name@)),
{
    let lower = to_lowercase(name);
    preset_named(lower.as_str())
}

/// The preset whose name, already lowercased, is `lower`.
pub fn preset_named(lower: &str) -> (res: Option<Theme>)
    ensures
        res == preset_for(lower@),
{
    let n = chars_of(lower);
    if chars_equal(&n, &chars_of("catppuccin")) || chars_equal(&n, &chars_of("catppuccin-mocha")) {
        Some(palette_exec(0xcba6f7, 0xa6e3a1, 0xf9e2af, 0xf38ba8, 0x6c7086, 0x585b70, 0xcdd6f4))
    } else if chars_equal(&n, &chars_of("catppuccin-macchiato")) {
        Some(palette_exec(0xc6a0f6, 0xa6da95, 0xeed49f, 0xed8796, 0x6e738d, 0x494d64, 0xcad3f5))
    } else if chars_equal(&n, &chars_of("catppuccin-frappe")) || chars_equal(&n, &chars_of("catppuccin-frappé")) {
        Some(palette_exec(0xca9ee6, 0xa6d189, 0xe5c890, 0xe78284, 0x737994, 0x51576d, 0xc6d0f5))
    } else if chars_equal(&n, &chars_of("catppuccin-latte")) {
        Some(palette_exec(0x8839ef, 0x40a02b, 0xdf8e1d, 0xd20f39, 0x9ca0b0, 0xbcc0cc, 0x4c4f69))
    } else if chars_equal(&n, &chars_of("gruvbox")) || chars_equal(&n, &chars_of("gruvbox-dark")) {
        Some(palette_exec(0xfe8019, 0xb8bb26, 0xfabd2f, 0xfb4934, 0x928374, 0x504945, 0xebdbb2))
    } else if chars_equal(&n, &chars_of("gruvbox-light")) {
        Some(palette_exec(0xaf3a03, 0x79740e, 0xb57614, 0x9d0006, 0x928374, 0xd5c4a1, 0x3c3836))
    } else {
        None
    }
}

/// The settings the application runs with.
#[derive(Clone, Copy, Debug, PartialEq, Eq, Structural)]
pub struct Config {
    /// The refresh interval, in milliseconds.
    pub tick_rate_ms: u64,
    pub theme: Theme,
}

pub open spec fn default_config() -> Config {
    Config { tick_rate_ms: DEFAULT_TICK_MS, theme: default_theme() }
}

impl Default for Config {
    fn default() -> (res: Self)
        ensures
            res == default_config(),
    {
        Config { tick_rate_ms: DEFAULT_TICK_MS, theme: Theme::default() }
    }
}

/// The `[general]` table of the configuration file.
pub struct RawGeneral {
    pub refresh_rate_ms: Option<u64>,
}

/// The `[theme]` table of the configuration file: an optional preset, and
/// optional overrides of single colors.
pub struct RawTheme {
    pub preset: Option<String>,
    pub background: Option<Color>,
    pub accent: Option<Color>,
    pub cpu_low: Option<Color>,
    pub cpu_mid: Option<Color>,
    pub cpu_high: Option<Color>,
    pub muted: Option<Color>,
    pub selection_bg: Option<Color>,
    pub selection_fg: Option<Color>,
}

/// The configuration file as parsed, every setting optional.
pub struct RawConfig {
    pub general: RawGeneral,
    pub theme: RawTheme,
}

impl RawConfig {
    /// A configuration that sets nothing.
    pub fn empty() -> (res: RawConfig)
        ensures
            res.general.refresh_rate_ms is None,
            res.theme.preset is None,
            res.theme.background is None,
            res.theme.accent is None,
            res.theme.cpu_low is None,
            res.theme.cpu_mid is None,
            res.theme.cpu_high is None,
            res.theme.muted is None,
            res.theme.selection_bg is None,
            res.theme.selection_fg is None,
    {
        RawConfig {
            general: RawGeneral { refresh_rate_ms: None },
            theme: RawTheme {
                preset: None,
                background: None,
                accent: None,
                cpu_low: None,
                cpu_mid: None,
                cpu_high: None,
                muted: None,
                selection_bg: None,
                selection_fg: None,
            },
        }
    }
}

pub open spec fn or_default(c: Option<Color>, d: Color) -> Color {
    match c {
        Some(c) => c,
        None => d,
    }
}

/// The palette under the explicit overrides: the named preset, or the
/// default theme when no preset is named or the name is unknown.
pub open spec fn base_theme(preset: Option<Seq<char>>) -> Theme {
    match preset {
        Some(name) => match preset_for(lowercase(name)) {
            Some(t) => t,
            None => default_theme(),
        },
        None => default_theme(),
    }
}

/// The refresh interval asked for, raised to the minimum; the default when
/// none is asked for.
pub open spec fn tick_rate_for(ms: Option<u64>) -> u64 {
    match ms {
        Some(ms) => if ms < MIN_TICK_MS { MIN_TICK_MS } else { ms },
        None => DEFAULT_TICK_MS,
    }
}

pub open spec fn preset_view(raw: &RawConfig) -> Option<Seq<char>> {
    match &raw.theme.preset {
        Some(p) => Some(p@),
        None => None,
    }
}

/// The configuration that `raw` describes: each color explicitly set wins
/// over the preset's (or the default's).
pub open spec fn resolved(raw: &RawConfig) -> Config {
    let d = base_theme(preset_view(raw));
    Config {
        tick_rate_ms: tick_rate_for(raw.general.refresh_rate_ms),
        theme: Theme {
            background: or_default(raw.theme.background, d.background),
            accent: or_default(raw.theme.accent, d.accent),
            cpu_low: or_default(raw.theme.cpu_low, d.cpu_low),
            cpu_mid: or_default(raw.theme.cpu_mid, d.cpu_mid),
            cpu_high: or_default(raw.theme.cpu_high, d.cpu_high),
            muted: or_default(raw.theme.muted, d.muted),
            selection_bg: or_default(raw.theme.selection_bg, d.selection_bg),
            selection_fg: or_default(raw.theme.selection_fg, d.selection_fg),
        },
    }
}

/// `raw` names a preset that does not exist (the caller warns about it).
pub open spec fn unknown_preset(raw: &RawConfig) -> bool {
    match preset_view(raw) {
        Some(name) => preset_for(lowercase(name)) is None,
        None => false,
    }
}

fn pick(c: Option<Color>, d: Color) -> (res: Color)
    ensures
        res == or_default(c, d),
{
    match c {
        Some(c) => c,
        None => d,
    }
}

/// Resolves a parsed configuration file into the settings the application
/// runs with. The second component tells whether the file named an
/// unknown preset, which then falls back to the default theme.
pub fn resolve_config(raw: &RawConfig) -> (res: (Config, bool))
    ensures
        res.0 == resolved(raw),
        res.1 == unknown_preset(raw),
{
    let (defaults, unknown) = match &raw.theme.preset {
        Some(name) => match preset_theme(name.as_str()) {
            Some(t) => (t, false),
            None => (Theme::default(), true),
        },
        None => (Theme::default(), false),
    };
    let tick_rate_ms = match raw.general.refresh_rate_ms {
        Some(ms) => if ms < MIN_TICK_MS { MIN_TICK_MS } else { ms },
        None => DEFAULT_TICK_MS,
    };
    let config = Config {
        tick_rate_ms,
        theme: Theme {
            background: pick(raw.theme.background, defaults.background),
            accent: pick(raw.theme.accent, defaults.accent),
            cpu_low: pick(raw.theme.cpu_low, defaults.cpu_low),
            cpu_mid: pick(raw.theme.cpu_mid, defaults.cpu_mid),
            cpu_high: pick(raw.theme.cpu_high, defaults.cpu_high),
            muted: pick(raw.theme.muted, defaults.muted),
            selection_bg: pick(raw.theme.selection_bg, defaults.selection_bg),
            selection_fg: pick(raw.theme.selection_fg, defaults.selection_fg),
        },
    };
    (config, unknown)
}

/// `rel` appended to the directory `dir` as a path: with a `/` between
/// them unless `dir` is empty or already ends with one.
pub open spec fn path_join(dir: Seq<char>, rel: Seq<char>) -> Seq<char> {
    if dir.len() == 0 || dir.last() == '/' {
        dir + rel
    } else {
        dir + "/"@ + rel
    }
}

/// Where the configuration file lives: under `$XDG_CONFIG_HOME` when that
/// is set and not empty, otherwise under `$HOME/.config` (`.` standing in
/// for an unset `$HOME`).
pub open spec fn config_path_spec(xdg_config_home: Option<Seq<char>>, home: Option<Seq<char>>) -> Seq<char> {
    match xdg_config_home {
        Some(dir) if dir.len() > 0 => path_join(dir, "tokimono/config.toml"@),
        _ => path_join(
            match home {
                Some(h) => h,
                None => "."@,
            },
            ".config/tokimono/config.toml"@,
        ),
    }
}

fn push_path(out: &mut Vec<char>, dir: &str, rel: &str)
    requires
        old(out)@.len() == 0,
    ensures
        final(out)@ == path_join(dir@, rel@),
{
    push_str(out, dir);
    let n = out.len();
    if n > 0 && out[n - 1] != '/' {
        push_str(out, "/");
    }
    push_str(out, rel);
    proof {
        reveal_strlit("/");
    }
    assert(out@ =~= path_join(dir@, rel@));
}

/// The path of the configuration file, from the values of the variables
/// `XDG_CONFIG_HOME` and `HOME` (`None` when unset).
pub fn config_path_from(xdg_config_home: Option<&str>, home: Option<&str>) -> (res: String)
    ensures
        res@ == config_path_spec(
            match xdg_config_home {
                Some(d) => Some(d@),
                None => None,
            },
            match home {
                Some(h) => Some(h@),
                None => None,
            },
        ),
{
    let mut out: Vec<char> = Vec::new();
    match xdg_config_home {
        Some(dir) if dir.unicode_len() > 0 => {
            push_path(&mut out, dir, "tokimono/config.toml");
        },
        _ => {
            let h = match home {
                Some(h) => h,
                None => ".",
            };
            push_path(&mut out, h, ".config/tokimono/config.toml");
        },
    }
    string_from_chars(&out)
}

/// The preset names are pairwise different.
proof fn lemma_preset_names_differ()
    ensures
        "catppuccin"@ != "catppuccin-mocha"@,
        "catppuccin"@ != "catppuccin-macchiato"@,
        "catppuccin"@ != "catppuccin-frappe"@,
        "catppuccin"@ != "catppuccin-frappé"@,
        "catppuccin"@ != "catppuccin-latte"@,
        "catppuccin"@ != "gruvbox"@,
        "catppuccin"@ != "gruvbox-dark"@,
        "catppuccin"@ != "gruvbox-light"@,
        "catppuccin-mocha"@ != "catppuccin-macchiato"@,
        "catppuccin-mocha"@ != "catppuccin-frappe"@,
        "catppuccin-mocha"@ != "catppuccin-frappé"@,
        "catppuccin-mocha"@ != "catppuccin-latte"@,
        "catppuccin-mocha"@ != "gruvbox"@,
        "catppuccin-mocha"@ != "gruvbox-dark"@,
        "catppuccin-mocha"@ != "gruvbox-light"@,
        "catppuccin-macchiato"@ != "catppuccin-frappe"@,
        "catppuccin-macchiato"@ != "catppuccin-frappé"@,
        "catppuccin-macchiato"@ != "catppuccin-latte"@,
        "catppuccin-macchiato"@ != "gruvbox"@,
        "catppuccin-macchiato"@ != "gruvbox-dark"@,
        "catppuccin-macchiato"@ != "gruvbox-light"@,
        "catppuccin-frappe"@ != "catppuccin-frappé"@,
        "catppuccin-frappe"@ != "catppuccin-latte"@,
        "catppuccin-frappe"@ != "gruvbox"@,
        "catppuccin-frappe"@ != "gruvbox-dark"@,
        "catppuccin-frappe"@ != "gruvbox-light"@,
        "catppuccin-frappé"@ != "catppuccin-latte"@,
        "catppuccin-frappé"@ != "gruvbox"@,
        "catppuccin-frappé"@ != "gruvbox-dark"@,
        "catppuccin-frappé"@ != "gruvbox-light"@,
        "catppuccin-latte"@ != "gruvbox"@,
        "catppuccin-latte"@ != "gruvbox-dark"@,
        "catppuccin-latte"@ != "gruvbox-light"@,
        "gruvbox"@ != "gruvbox-dark"@,
        "gruvbox"@ != "gruvbox-light"@,
        "gruvbox-dark"@ != "gruvbox-light"@,
{
    reveal_strlit("catppuccin");
    reveal_strlit("catppuccin-mocha");
    reveal_strlit("catppuccin-macchiato");
    reveal_strlit("catppuccin-frappe");
    reveal_strlit("catppuccin-frappé");
    reveal_strlit("catppuccin-latte");
    reveal_strlit("gruvbox");
    reveal_strlit("gruvbox-dark");
    reveal_strlit("gruvbox-light");
    assert("catppuccin"@.len() != "catppuccin-mocha"@.len());
    assert("catppuccin"@.len() != "catppuccin-macchiato"@.len());
    assert("catppuccin"@.len() != "catppuccin-frappe"@.len());
    assert("catppuccin"@.len() != "catppuccin-frappé"@.len());
    assert("catppuccin"@.len() != "catppuccin-latte"@.len());
    assert("catppuccin"@.len() != "gruvbox"@.len());
    assert("catppuccin"@.len() != "gruvbox-dark"@.len());
    assert("catppuccin"@.len() != "gruvbox-light"@.len());
    assert("catppuccin-mocha"@.len() != "catppuccin-macchiato"@.len());
    assert("catppuccin-mocha"@.len() != "catppuccin-frappe"@.len());
    assert("catppuccin-mocha"@.len() != "catppuccin-frappé"@.len());
    assert("catppuccin-mocha"@[11] != "catppuccin-latte"@[11]);
    assert("catppuccin-mocha"@.len() != "gruvbox"@.len());
    assert("catppuccin-mocha"@.len() != "gruvbox-dark"@.len());
    assert("catppuccin-mocha"@.len() != "gruvbox-light"@.len());
    assert("catppuccin-macchiato"@.len() != "catppuccin-frappe"@.len());
    assert("catppuccin-macchiato"@.len() != "catppuccin-frappé"@.len());
    assert("catppuccin-macchiato"@.len() != "catppuccin-latte"@.len());
    assert("catppuccin-macchiato"@.len() != "gruvbox"@.len());
    assert("catppuccin-macchiato"@.len() != "gruvbox-dark"@.len());
    assert("catppuccin-macchiato"@.len() != "gruvbox-light"@.len());
    assert("catppuccin-frappe"@[16] != "catppuccin-frappé"@[16]);
    assert("catppuccin-frappe"@.len() != "catppuccin-latte"@.len());
    assert("catppuccin-frappe"@.len() != "gruvbox"@.len());
    assert("catppuccin-frappe"@.len() != "gruvbox-dark"@.len());
    assert("catppuccin-frappe"@.len() != "gruvbox-light"@.len());
    assert("catppuccin-frappé"@.len() != "catppuccin-latte"@.len());
    assert("catppuccin-frappé"@.len() != "gruvbox"@.len());
    assert("catppuccin-frappé"@.len() != "gruvbox-dark"@.len());
    assert("catppuccin-frappé"@.len() != "gruvbox-light"@.len());
    assert("catppuccin-latte"@.len() != "gruvbox"@.len());
    assert("catppuccin-latte"@.len() != "gruvbox-dark"@.len());
    assert("catppuccin-latte"@.len() != "gruvbox-light"@.len());
    assert("gruvbox"@.len() != "gruvbox-dark"@.len());
    assert("gruvbox"@.len() != "gruvbox-light"@.len());
    assert("gruvbox-dark"@.len() != "gruvbox-light"@.len());
}

/// The presets hold their documented palettes, given here as RGB bytes:
/// Catppuccin's Mocha, Macchiato, Frappé and Latte flavors and Gruvbox's
/// dark and light palettes, each on the terminal's own background.
pub proof fn lemma_preset_palettes()
    ensures
        preset_for("catppuccin-mocha"@) == Some(Theme { background: Color::Reset, accent: Color::Rgb(0xcb, 0xa6, 0xf7), cpu_low: Color::Rgb(0xa6, 0xe3, 0xa1), cpu_mid: Color::Rgb(0xf9, 0xe2, 0xaf), cpu_high: Color::Rgb(0xf3, 0x8b, 0xa8), muted: Color::Rgb(0x6c, 0x70, 0x86), selection_bg: Color::Rgb(0x58, 0x5b, 0x70), selection_fg: Color::Rgb(0xcd, 0xd6, 0xf4) }),
        preset_for("catppuccin-macchiato"@) == Some(Theme { background: Color::Reset, accent: Color::Rgb(0xc6, 0xa0, 0xf6), cpu_low: Color::Rgb(0xa6, 0xda, 0x95), cpu_mid: Color::Rgb(0xee, 0xd4, 0x9f), cpu_high: Color::Rgb(0xed, 0x87, 0x96), muted: Color::Rgb(0x6e, 0x73, 0x8d), selection_bg: Color::Rgb(0x49, 0x4d, 0x64), selection_fg: Color::Rgb(0xca, 0xd3, 0xf5) }),
        preset_for("catppuccin-frappe"@) == Some(Theme { background: Color::Reset, accent: Color::Rgb(0xca, 0x9e, 0xe6), cpu_low: Color::Rgb(0xa6, 0xd1, 0x89), cpu_mid: Color::Rgb(0xe5, 0xc8, 0x90), cpu_high: Color::Rgb(0xe7, 0x82, 0x84), muted: Color::Rgb(0x73, 0x79, 0x94), selection_bg: Color::Rgb(0x51, 0x57, 0x6d), selection_fg: Color::Rgb(0xc6, 0xd0, 0xf5) }),
        preset_for("catppuccin-latte"@) == Some(Theme { background: Color::Reset, accent: Color::Rgb(0x88, 0x39, 0xef), cpu_low: Color::Rgb(0x40, 0xa0, 0x2b), cpu_mid: Color::Rgb(0xdf, 0x8e, 0x1d), cpu_high: Color::Rgb(0xd2, 0x0f, 0x39), muted: Color::Rgb(0x9c, 0xa0, 0xb0), selection_bg: Color::Rgb(0xbc, 0xc0, 0xcc), selection_fg: Color::Rgb(0x4c, 0x4f, 0x69) }),
        preset_for("gruvbox-dark"@) == Some(Theme { background: Color::Reset, accent: Color::Rgb(0xfe, 0x80, 0x19), cpu_low: Color::Rgb(0xb8, 0xbb, 0x26), cpu_mid: Color::Rgb(0xfa, 0xbd, 0x2f), cpu_high: Color::Rgb(0xfb, 0x49, 0x34), muted: Color::Rgb(0x92, 0x83, 0x74), selection_bg: Color::Rgb(0x50, 0x49, 0x45), selection_fg: Color::Rgb(0xeb, 0xdb, 0xb2) }),
        preset_for("gruvbox-light"@) == Some(Theme { background: Color::Reset, accent: Color::Rgb(0xaf, 0x3a, 0x03), cpu_low: Color::Rgb(0x79, 0x74, 0x0e), cpu_mid: Color::Rgb(0xb5, 0x76, 0x14), cpu_high: Color::Rgb(0x9d, 0x00, 0x06), muted: Color::Rgb(0x92, 0x83, 0x74), selection_bg: Color::Rgb(0xd5, 0xc4, 0xa1), selection_fg: Color::Rgb(0x3c, 0x38, 0x36) }),
{
    reveal_strlit("catppuccin");
    reveal_strlit("catppuccin-mocha");
    reveal_strlit("catppuccin-macchiato");
    reveal_strlit("catppuccin-frappe");
    reveal_strlit("catppuccin-frappé");
    reveal_strlit("catppuccin-latte");
    reveal_strlit("gruvbox");
    reveal_strlit("gruvbox-dark");
    reveal_strlit("gruvbox-light");
    lemma_preset_names_differ();
}

/// The preset names: exactly the six palettes, the bare family names
/// `catppuccin` and `gruvbox` (aliases of Mocha and of the dark Gruvbox)
/// and the accented `catppuccin-frappé` (an alias of Frappé) name a preset.
pub proof fn lemma_preset_names(name: Seq<char>)
    ensures
        preset_for(name) is Some <==> (name == "catppuccin"@ || name == "catppuccin-mocha"@ || name == "catppuccin-macchiato"@ || name == "catppuccin-frappe"@ || name == "catppuccin-frappé"@ || name == "catppuccin-latte"@ || name == "gruvbox"@ || name == "gruvbox-dark"@ || name == "gruvbox-light"@),
        preset_for("catppuccin"@) == preset_for("catppuccin-mocha"@),
        preset_for("gruvbox"@) == preset_for("gruvbox-dark"@),
        preset_for("catppuccin-frappé"@) == preset_for("catppuccin-frappe"@),
        preset_for("gruvbox-dark"@) != preset_for("gruvbox-light"@),
{
    reveal_strlit("catppuccin");
    reveal_strlit("catppuccin-mocha");
    reveal_strlit("catppuccin-macchiato");
    reveal_strlit("catppuccin-frappe");
    reveal_strlit("catppuccin-frappé");
    reveal_strlit("catppuccin-latte");
    reveal_strlit("gruvbox");
    reveal_strlit("gruvbox-dark");
    reveal_strlit("gruvbox-light");
    lemma_preset_names_differ();
    lemma_preset_palettes();
}

/// No preset paints an opaque background: every preset keeps the
/// terminal's own background.
pub proof fn lemma_presets_keep_background(name: Seq<char>)
    ensures
        preset_for(name) matches Some(t) ==> t.background == Color::Reset,
{
}

/// Preset lookup ignores case: names with the same lowercase form find the
/// same preset.
pub proof fn lemma_preset_lookup_ignores_case(a: Seq<char>, b: Seq<char>)
    requires
        lowercase(a) == lowercase(b),
    ensures
        preset_for(lowercase(a)) == preset_for(lowercase(b)),
{
}

/// The refresh interval is never shorter than the minimum, and an interval
/// at or above it is taken as given.
pub proof fn lemma_tick_rate_floor(ms: Option<u64>)
    ensures
        tick_rate_for(ms) >= MIN_TICK_MS,
        ms is Some && ms->0 >= MIN_TICK_MS ==> tick_rate_for(ms) == ms->0,
{
}

/// A color set explicitly in the file wins over the preset's; a color left
/// unset comes from the preset, or from the default theme when the preset
/// is unknown or absent.
pub proof fn lemma_overrides_win(raw: &RawConfig)
    ensures
        raw.theme.accent matches Some(c) ==> resolved(raw).theme.accent == c,
        raw.theme.background matches Some(c) ==> resolved(raw).theme.background == c,
        raw.theme.background is None ==> resolved(raw).theme.background == Color::Reset,
        raw.theme.accent is None ==> resolved(raw).theme.accent == base_theme(preset_view(raw)).accent,
        unknown_preset(raw) ==> base_theme(preset_view(raw)) == default_theme(),
{
}

} // verus!
