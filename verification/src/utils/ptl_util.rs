//! Terminal output: lines that are printed in a color where the output is a
//! terminal.
use vstd::prelude::*;

verus! {

/// A terminal color.
#[derive(Clone, Copy, Debug, PartialEq, Eq, Structural)]
pub enum Color {
    Red,
    Green,
}

/// One line of output, in a color where it has one.
pub struct ColoredLine {
    pub text: String,
    pub color: Option<Color>,
}

/// What a line of output holds.
pub struct ColoredLineView {
    pub text: Seq<char>,
    pub color: Option<Color>,
}

impl View for ColoredLine {
    type V = ColoredLineView;

    open spec fn view(&self) -> ColoredLineView {
        ColoredLineView { text: self.text@, color: self.color }
    }
}

/// The views of a sequence of output lines.
pub open spec fn colored_lines_view(lines: Seq<ColoredLine>) -> Seq<ColoredLineView> {
    lines.map_values(|l: ColoredLine| l@)
}

} // verus!
