//! Tags: named, colored labels. A tag's identity is its name alone; the
//! color is mutable display metadata that never takes part in equality.

use vstd::prelude::*;

verus! {

/// A display color for a tag: one of the classic terminal colors or an
/// explicit RGB triple.
#[derive(Clone, Copy, Debug, PartialEq, Eq, Structural)]
pub enum Color {
    Black,
    Red,
    Green,
    Yellow,
    Blue,
    Magenta,
    Cyan,
    White,
    BrightBlack,
    BrightRed,
    BrightGreen,
    BrightYellow,
    BrightBlue,
    BrightMagenta,
    BrightCyan,
    BrightWhite,
    Rgb(u8, u8, u8),
}

/// The mathematical value of a tag: its name as a sequence of characters,
/// and its color.
pub ghost struct TagView {
    pub name: Seq<char>,
    pub color: Color,
}

/// A named, colored label attachable to entries. Two tags with equal names
/// are the same key in any map keyed by `Tag`, whatever their colors.
#[derive(Debug)]
pub struct Tag {
    name: String,
    color: Color,
}

impl View for Tag {
    type V = TagView;

    closed spec fn view(&self) -> TagView {
        TagView { name: self.name@, color: self.color }
    }
}

/// Relies on rand::random_range to pick an index: the result lies in the
/// requested range, which must be nonempty or the call panics.
#[verifier::external_body]
fn random_index(n: usize) -> (r: usize)
    requires
        n > 0,
    ensures
        r < n,
{
    rand::random_range(0..n)
}

impl Tag {
    /// A tag is well formed when its name is nonempty.
    pub open spec fn wf(self) -> bool {
        self@.name.len() > 0
    }

    /// Creates a tag with the given name and an explicit color.
    pub fn new(name: &str, color: Color) -> (r: Tag)
        requires
            name@.len() > 0,
        ensures
            r@.name == name@,
            r@.color == color,
            r.wf(),
    {
        Tag { name: name.to_owned(), color }
    }

    /// Creates a tag with the given name and a color drawn from `colors`.
    pub fn random(name: &str, colors: &Vec<Color>) -> (r: Tag)
        requires
            name@.len() > 0,
            colors@.len() > 0,
        ensures
            r@.name == name@,
            colors@.contains(r@.color),
            r.wf(),
    {
        let i = random_index(colors.len());
        Tag { name: name.to_owned(), color: colors[i] }
    }

    /// Builds a tag from already-decoded parts.
    pub(crate) fn from_parts(name: String, color: Color) -> (r: Tag)
        ensures
            r@.name == name@,
            r@.color == color,
    {
        Tag { name, color }
    }

    /// The tag's name, its identity.
    pub fn name(&self) -> (r: &str)
        ensures
            r@ == self@.name,
    {
        self.name.as_str()
    }

    /// The tag's current color.
    pub fn color(&self) -> (r: &Color)
        ensures
            *r == self@.color,
    {
        &self.color
    }

    /// Replaces the color, leaving the identity untouched.
    pub fn set_color(&mut self, color: &Color)
        ensures
            final(self)@.name == old(self)@.name,
            final(self)@.color == *color,
    {
        self.color = *color;
    }
}

impl Clone for Tag {
    fn clone(&self) -> (r: Self)
        ensures
            r == *self,
    {
        Tag { name: self.name.clone(), color: self.color }
    }
}

impl PartialEq for Tag {
    fn eq(&self, other: &Tag) -> (r: bool) {
        self.name == other.name
    }
}

impl vstd::std_specs::cmp::PartialEqSpecImpl for Tag {
    open spec fn obeys_eq_spec() -> bool {
        true
    }

    open spec fn eq_spec(&self, other: &Tag) -> bool {
        self@.name == other@.name
    }
}

} // verus!
