//! How a renderer is asked to show a Lottie animation, and the changes a
//! timeline announces to it.
use vstd::prelude::*;

verus! {

/// Rendering into a window.
#[derive(Debug, Clone, Copy, PartialEq, Eq, Structural)]
pub struct WindowConfig {
    pub show_controls: bool,
    pub show_debug: bool,
}

/// Rendering without a window.
#[derive(Debug, Clone, Copy, PartialEq, Eq, Structural)]
pub struct HeadlessConfig {}

/// How to render.
#[derive(Debug, Clone, Copy, PartialEq, Eq, Structural)]
pub enum Config {
    Window(WindowConfig),
    Headless(HeadlessConfig),
}

impl Config {
    /// Whether this configuration renders without a window (and so captures
    /// frames instead of showing them).
    pub fn is_headless(&self) -> (b: bool)
        ensures
            b == (*self is Headless),
    {
        match self {
            Config::Headless(_) => true,
            Config::Window(_) => false,
        }
    }
}

/// A change on the timeline: a staged layer (by id) appears or disappears.
#[derive(Debug, Clone, Copy, PartialEq, Eq, Structural)]
pub enum TimelineAction {
    Spawn(usize),
    Destroy(usize),
}

/// The position of character `c` of line `line` in a text: the characters
/// of the lines before it, then `c`.
pub open spec fn char_position(value: Seq<Vec<char>>, line: int, c: int) -> int
    decreases line,
{
    if line <= 0 {
        c
    } else {
        char_position(value, line - 1, c) + value[line - 1]@.len()
    }
}

proof fn lemma_char_position_grows(value: Seq<Vec<char>>, i: int, j: int, c: int)
    requires
        0 <= i <= j,
    ensures
        char_position(value, i, c) <= char_position(value, j, c),
    decreases j - i,
{
    if i < j {
        lemma_char_position_grows(value, i, j - 1, c);
    }
}

/// Whether character `c` of line `line` of a text lies in the characters
/// `[start, end)` that a text range selects.
pub fn index_in_text_range(value: &Vec<Vec<char>>, line: usize, c: usize, start: usize, end: usize) -> (b:
    bool)
    requires
        line <= value@.len(),
        char_position(value@, line as int, c as int) <= usize::MAX,
    ensures
        b == (start <= char_position(value@, line as int, c as int) < end),
{
    let mut index: usize = c;
    let mut i: usize = 0;
    while i < line
        invariant
            i <= line,
            line <= value@.len(),
            index == char_position(value@, i as int, c as int),
            char_position(value@, line as int, c as int) <= usize::MAX,
        decreases line - i,
    {
        proof {
            lemma_char_position_grows(value@, i + 1, line as int, c as int);
        }
        index = index + value[i].len();
        i = i + 1;
    }
    start <= index && index < end
}

} // verus!
