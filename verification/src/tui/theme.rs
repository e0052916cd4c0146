//! The Unicorn color palette: dark background, magenta/purple brand accent
//! and muted borders.

use vstd::prelude::*;

verus! {

/// A 24-bit color.
#[derive(Debug, Clone, Copy, PartialEq, Eq, Structural)]
pub struct Rgb {
    pub r: u8,
    pub g: u8,
    pub b: u8,
}

/// The colors the dashboard draws with.
#[derive(Debug, Clone, Copy, PartialEq, Eq, Structural)]
pub struct Theme {
    pub background: Rgb,
    pub surface: Rgb,
    pub border: Rgb,
    pub brand: Rgb,
    pub text: Rgb,
    pub text_muted: Rgb,
    pub success: Rgb,
    pub warning: Rgb,
    pub danger: Rgb,
    pub info: Rgb,
}

/// The color with the given components.
pub open spec fn rgb(r: u8, g: u8, b: u8) -> Rgb {
    Rgb { r, g, b }
}

impl Default for Theme {
    /// The Unicorn palette.
    fn default() -> (theme: Self)
        ensures
            theme == (Theme {
                background: rgb(10, 10, 18),
                surface: rgb(18, 18, 30),
                border: rgb(60, 60, 90),
                brand: rgb(190, 120, 255),
                text: rgb(230, 230, 240),
                text_muted: rgb(140, 140, 160),
                success: rgb(80, 220, 140),
                warning: rgb(240, 200, 90),
                danger: rgb(240, 100, 110),
                info: rgb(90, 180, 240),
            }),
    {
        Theme {
            background: Rgb { r: 10, g: 10, b: 18 },
            surface: Rgb { r: 18, g: 18, b: 30 },
            border: Rgb { r: 60, g: 60, b: 90 },
            brand: Rgb { r: 190, g: 120, b: 255 },
            text: Rgb { r: 230, g: 230, b: 240 },
            text_muted: Rgb { r: 140, g: 140, b: 160 },
            success: Rgb { r: 80, g: 220, b: 140 },
            warning: Rgb { r: 240, g: 200, b: 90 },
            danger: Rgb { r: 240, g: 100, b: 110 },
            info: Rgb { r: 90, g: 180, b: 240 },
        }
    }
}

} // verus!
