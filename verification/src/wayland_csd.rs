//! The colours of the window decorations, which follow the selected kind.

use vstd::prelude::*;
use crate::particle::ParticleType;
use crate::ui::{ptype_ui_color, ptype_ui_text_color, selectable, ui_color, light_text};

verus! {

/// The parts of the title bar.
#[derive(Clone, Copy, PartialEq, Eq, Structural, Debug)]
pub enum CsdElement {
    Bar,
    Separator,
    Text,
}

/// The states of a title bar button.
#[derive(Clone, Copy, PartialEq, Eq, Structural, Debug)]
pub enum CsdButtonState {
    Idle,
    Hovered,
    Disabled,
}

/// An opaque colour, as alpha, red, green, blue.
#[derive(Clone, Copy, PartialEq, Eq, Structural, Debug)]
pub struct Argb {
    pub a: u8,
    pub r: u8,
    pub g: u8,
    pub b: u8,
}

/// The decoration theme: it colours the title bar like the button of the
/// selected kind.
pub struct WaylandCSDTheme {
    pub selected_particle: Option<ParticleType>,
}

/// `c + 30`, saturating at 255.
pub open spec fn lighter(c: u8) -> u8 {
    if c > 225 { 255 } else { (c + 30) as u8 }
}

/// `c - 30`, saturating at 0.
pub open spec fn darker(c: u8) -> u8 {
    if c < 30 { 0 } else { (c - 30) as u8 }
}

/// The text colour of `ptype`'s button.
pub open spec fn text_color(ptype: Option<ParticleType>) -> (u8, u8, u8) {
    if light_text(ptype) { (204, 204, 204) } else { (0, 0, 0) }
}

/// `c` lightened by 30 on every channel when `lighten`.
pub open spec fn lightened(c: (u8, u8, u8), lighten: bool) -> (u8, u8, u8) {
    if lighten { (lighter(c.0), lighter(c.1), lighter(c.2)) } else { c }
}

fn rgb_of(c: [u8; 3]) -> (t: (u8, u8, u8))
    ensures
        t == (c@[0], c@[1], c@[2]),
{
    (c[0], c[1], c[2])
}

impl WaylandCSDTheme {
    /// The colour of a title bar part: the bar in the selected kind's
    /// colour, the text in its text colour, the separator black; all but
    /// the separator 30 lighter while the window is inactive.
    pub fn element_color(&self, element: CsdElement, window_active: bool) -> (c: Argb)
        requires
            selectable(self.selected_particle),
        ensures
            ({
                let base = match element {
                    CsdElement::Bar => ui_color(self.selected_particle),
                    CsdElement::Separator => (0u8, 0u8, 0u8),
                    CsdElement::Text => text_color(self.selected_particle),
                };
                let rgb = lightened(base, !window_active && element != CsdElement::Separator);
                c == Argb { a: 255, r: rgb.0, g: rgb.1, b: rgb.2 }
            }),
    {
        let (mut r, mut g, mut b) = match element {
            CsdElement::Bar => rgb_of(ptype_ui_color(self.selected_particle)),
            CsdElement::Separator => (0, 0, 0),
            CsdElement::Text => rgb_of(ptype_ui_text_color(self.selected_particle)),
        };
        if !window_active && element != CsdElement::Separator {
            r = r.saturating_add(30);
            g = g.saturating_add(30);
            b = b.saturating_add(30);
        }
        Argb { a: 255, r, g, b }
    }

    /// The colour of a title bar button: the text colour in the foreground,
    /// the selected kind's colour behind; 30 darker when hovered or disabled,
    /// then 30 lighter while the window is inactive.
    pub fn button_color(&self, state: CsdButtonState, foreground: bool, window_active: bool) -> (c: Argb)
        requires
            selectable(self.selected_particle),
        ensures
            ({
                let base = if foreground { text_color(self.selected_particle) } else { ui_color(self.selected_particle) };
                let dimmed = if state == CsdButtonState::Hovered || state == CsdButtonState::Disabled {
                    (darker(base.0), darker(base.1), darker(base.2))
                } else {
                    base
                };
                let rgb = lightened(dimmed, !window_active);
                c == Argb { a: 255, r: rgb.0, g: rgb.1, b: rgb.2 }
            }),
    {
        let (mut r, mut g, mut b) = if foreground {
            rgb_of(ptype_ui_text_color(self.selected_particle))
        } else {
            rgb_of(ptype_ui_color(self.selected_particle))
        };
        match state {
            CsdButtonState::Hovered | CsdButtonState::Disabled => {
                r = r.saturating_sub(30);
                g = g.saturating_sub(30);
                b = b.saturating_sub(30);
            },
            _ => {},
        }
        if !window_active {
            r = r.saturating_add(30);
            g = g.saturating_add(30);
            b = b.saturating_add(30);
        }
        Argb { a: 255, r, g, b }
    }
}

} // verus!
