//! The style value carried across a render: optional foreground and
//! background colors plus a bold flag, and the SGR graphics-mode
//! transition table that updates it.

use vstd::prelude::*;

verus! {

/// Why a render is refused.  The renderer aborts on the first of these
/// it meets and reports it to the caller; the grid is left untouched.
#[derive(Clone, Copy, Debug, PartialEq, Eq)]
pub enum RenderError {
    /// A `38`/`48` graphics code whose color-mode selector is neither
    /// `2` (true color) nor `5` (palette index).
    UnsupportedColorMode,
    /// A graphics code whose leading value is outside `{0, 1, 2, 38, 48}`.
    UnsupportedAttribute,
    /// An escape of any kind other than graphics mode or reset mode.
    UnsupportedEscapeSequence,
    /// A truncated or otherwise unparsable escape sequence.
    MalformedInput,
}

/// A terminal color: true color or a 256-color palette index.
#[derive(Clone, Copy, Debug, PartialEq, Eq)]
pub enum Color {
    Rgb(u8, u8, u8),
    Indexed(u8),
}

/// The style a cell is written with.  Immutable value; each
/// style-changing escape code produces a fresh one.
#[derive(Clone, Copy, Debug, PartialEq, Eq)]
pub struct Style {
    pub foreground: Option<Color>,
    pub background: Option<Color>,
    pub bold: bool,
}

impl Style {
    /// The all-default style: no colors, not bold.
    pub open spec fn default_spec() -> Style {
        Style { foreground: None, background: None, bold: false }
    }
}

impl Default for Style {
    fn default() -> (r: Style)
        ensures
            r == Style::default_spec(),
    {
        Style { foreground: None, background: None, bold: false }
    }
}

/// Decodes the color carried by a `38` (foreground) or `48`
/// (background) graphics code: `params[1]` selects the mode, `2` takes
/// three components and `5` one palette index.
pub open spec fn decode_color_spec(params: Seq<u8>) -> Result<Color, RenderError> {
    if params.len() < 2 {
        Err(RenderError::MalformedInput)
    } else if params[1] == 2 {
        if params.len() < 5 {
            Err(RenderError::MalformedInput)
        } else {
            Ok(Color::Rgb(params[2], params[3], params[4]))
        }
    } else if params[1] == 5 {
        if params.len() < 3 {
            Err(RenderError::MalformedInput)
        } else {
            Ok(Color::Indexed(params[2]))
        }
    } else {
        Err(RenderError::UnsupportedColorMode)
    }
}

/// The SGR transition table: how one graphics-mode code transforms the
/// running style.  `0` resets, `1`/`2` switch bold on/off, `38`/`48`
/// set a color; anything else is an unsupported attribute.
pub open spec fn apply_graphics_spec(style: Style, params: Seq<u8>) -> Result<
    Style,
    RenderError,
> {
    if params.len() == 0 {
        Err(RenderError::MalformedInput)
    } else if params[0] == 0 {
        Ok(Style::default_spec())
    } else if params[0] == 1 {
        Ok(Style { bold: true, ..style })
    } else if params[0] == 2 {
        Ok(Style { bold: false, ..style })
    } else if params[0] == 38 {
        match decode_color_spec(params) {
            Ok(c) => Ok(Style { foreground: Some(c), ..style }),
            Err(e) => Err(e),
        }
    } else if params[0] == 48 {
        match decode_color_spec(params) {
            Ok(c) => Ok(Style { background: Some(c), ..style }),
            Err(e) => Err(e),
        }
    } else {
        Err(RenderError::UnsupportedAttribute)
    }
}

/// Decodes the color of a `38`/`48` code.
pub fn decode_color(params: &Vec<u8>) -> (r: Result<Color, RenderError>)
    ensures
        r == decode_color_spec(params@),
{
    if params.len() < 2 {
        Err(RenderError::MalformedInput)
    } else if params[1] == 2 {
        if params.len() < 5 {
            Err(RenderError::MalformedInput)
        } else {
            Ok(Color::Rgb(params[2], params[3], params[4]))
        }
    } else if params[1] == 5 {
        if params.len() < 3 {
            Err(RenderError::MalformedInput)
        } else {
            Ok(Color::Indexed(params[2]))
        }
    } else {
        Err(RenderError::UnsupportedColorMode)
    }
}

/// Applies one graphics-mode code to the running style.
pub fn apply_graphics(style: &Style, params: &Vec<u8>) -> (r: Result<Style, RenderError>)
    ensures
        r == apply_graphics_spec(*style, params@),
{
    if params.len() == 0 {
        Err(RenderError::MalformedInput)
    } else if params[0] == 0 {
        Ok(Style::default())
    } else if params[0] == 1 {
        Ok(Style { bold: true, ..*style })
    } else if params[0] == 2 {
        Ok(Style { bold: false, ..*style })
    } else if params[0] == 38 {
        match decode_color(params) {
            Ok(c) => Ok(Style { foreground: Some(c), ..*style }),
            Err(e) => Err(e),
        }
    } else if params[0] == 48 {
        match decode_color(params) {
            Ok(c) => Ok(Style { background: Some(c), ..*style }),
            Err(e) => Err(e),
        }
    } else {
        Err(RenderError::UnsupportedAttribute)
    }
}

} // verus!
