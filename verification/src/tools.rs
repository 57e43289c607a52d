//! The drawing tools of the board and what choosing one does to the selection.
use vstd::prelude::*;

verus! {

/// The tool that decides what a pointer gesture on the board does.
#[derive(Debug, Clone, Copy, PartialEq, Eq, Structural)]
pub enum ActiveTool {
    Select,
    Hand,
    FreeDraw,
    FountainPen,
    Rectangle,
    Ellipse,
    Line,
    Arrow,
    Highlighter,
    Text,
    Eraser,
    MagicPen,
    LaserPen,
}

impl Default for ActiveTool {
    /// The selection tool.
    fn default() -> (t: Self)
        ensures
            t == ActiveTool::Select,
    {
        ActiveTool::Select
    }
}

impl ActiveTool {
    /// The tools that draw a freehand stroke: the pen, the highlighter, the
    /// fountain pen, the magic pen and the laser pen.
    pub open spec fn spec_draws_freehand(self) -> bool {
        self is FreeDraw || self is Highlighter || self is FountainPen || self is MagicPen || self is LaserPen
    }

    /// Whether this tool draws a freehand stroke.
    pub fn draws_freehand(&self) -> (r: bool)
        ensures
            r == self.spec_draws_freehand(),
    {
        match self {
            ActiveTool::FreeDraw
            | ActiveTool::Highlighter
            | ActiveTool::FountainPen
            | ActiveTool::MagicPen
            | ActiveTool::LaserPen => true,
            _ => false,
        }
    }

    /// Whether switching to this tool drops the current selection: every tool
    /// does except free drawing, rectangles and selection itself.
    pub open spec fn spec_clears_selection(self) -> bool {
        !(self is FreeDraw || self is Rectangle || self is Select)
    }

    /// Whether switching to this tool drops the current selection.
    pub fn clears_selection(&self) -> (r: bool)
        ensures
            r == self.spec_clears_selection(),
    {
        match self {
            ActiveTool::FreeDraw | ActiveTool::Rectangle | ActiveTool::Select => false,
            _ => true,
        }
    }
}

/// What switching to each tool does to the selection: choosing the pen, the
/// rectangle or the selection tool keeps it; choosing any other tool (the
/// hand, the fountain pen, the ellipse, the line, the arrow, the
/// highlighter, the text, the eraser, the magic pen or the laser pen) drops
/// it. Only the pens draw freehand.
pub proof fn law_tool_table()
    ensures
        !ActiveTool::FreeDraw.spec_clears_selection(),
        !ActiveTool::Rectangle.spec_clears_selection(),
        !ActiveTool::Select.spec_clears_selection(),
        ActiveTool::Hand.spec_clears_selection(),
        ActiveTool::FountainPen.spec_clears_selection(),
        ActiveTool::Ellipse.spec_clears_selection(),
        ActiveTool::Line.spec_clears_selection(),
        ActiveTool::Arrow.spec_clears_selection(),
        ActiveTool::Highlighter.spec_clears_selection(),
        ActiveTool::Text.spec_clears_selection(),
        ActiveTool::Eraser.spec_clears_selection(),
        ActiveTool::MagicPen.spec_clears_selection(),
        ActiveTool::LaserPen.spec_clears_selection(),
        ActiveTool::FreeDraw.spec_draws_freehand(),
        ActiveTool::Highlighter.spec_draws_freehand(),
        ActiveTool::FountainPen.spec_draws_freehand(),
        ActiveTool::MagicPen.spec_draws_freehand(),
        ActiveTool::LaserPen.spec_draws_freehand(),
        !ActiveTool::Select.spec_draws_freehand(),
        !ActiveTool::Hand.spec_draws_freehand(),
        !ActiveTool::Rectangle.spec_draws_freehand(),
        !ActiveTool::Ellipse.spec_draws_freehand(),
        !ActiveTool::Line.spec_draws_freehand(),
        !ActiveTool::Arrow.spec_draws_freehand(),
        !ActiveTool::Text.spec_draws_freehand(),
        !ActiveTool::Eraser.spec_draws_freehand(),
{
}

/// Every tool that keeps the selection is one of the pen, the rectangle
/// and the selection tool.
pub proof fn law_few_tools_keep_selection(t: ActiveTool)
    ensures
        !t.spec_clears_selection() ==> (t == ActiveTool::FreeDraw || t == ActiveTool::Rectangle || t
            == ActiveTool::Select),
{
}

} // verus!
