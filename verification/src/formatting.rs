//! Formatting helpers: plural forms and the glyphs used to draw the
//! smartlog, as plain text or with prettier characters for a terminal.

use vstd::prelude::*;

use crate::text::{decimal_text, i64_to_string, push_char};

verus! {

/// A quantity with its unit, in singular or plural form as the amount
/// requires.
pub struct Pluralize<'a> {
    /// The amount of the quantity.
    pub amount: isize,
    /// The string to render if the amount is singular.
    pub singular: &'a str,
    /// The string to render if the amount is plural.
    pub plural: &'a str,
}

/// The text of a pluralized quantity: the amount, a space, and the singular
/// word for an amount of exactly one, the plural word otherwise.
pub open spec fn pluralize_text(amount: int, singular: Seq<char>, plural: Seq<char>) -> Seq<char> {
    decimal_text(amount) + seq![' '] + if amount == 1 {
        singular
    } else {
        plural
    }
}

impl<'a> Pluralize<'a> {
    /// Render the quantity, e.g. "1 thing" or "2 things".
    pub fn to_string(&self) -> (r: String)
        ensures
            r@ == pluralize_text(self.amount as int, self.singular@, self.plural@),
    {
        let mut s = i64_to_string(self.amount as i64);
        push_char(&mut s, ' ');
        if self.amount == 1 {
            s.append(self.singular);
        } else {
            s.append(self.plural);
        }
        s
    }
}

/// Glyphs to use for rendering the smartlog.
#[derive(Debug)]
pub struct Glyphs {
    /// Whether or not ANSI escape codes should be emitted (e.g. to render
    /// color).
    pub should_write_ansi_escape_codes: bool,
    /// Line connecting a parent commit to its single child commit.
    pub line: &'static str,
    /// Line connecting a parent commit with two or more child commits.
    pub line_with_offshoot: &'static str,
    /// Denotes an omitted sequence of commits.
    pub vertical_ellipsis: &'static str,
    /// Line used to connect a parent commit to its non-first child commit.
    pub slash: &'static str,
    /// Cursor for a visible commit which is not currently checked out.
    pub commit_visible: &'static str,
    /// Cursor for the visible commit which is currently checked out.
    pub commit_visible_head: &'static str,
    /// Cursor for a hidden commit.
    pub commit_hidden: &'static str,
    /// Cursor for the hidden commit which is currently checked out.
    pub commit_hidden_head: &'static str,
    /// Cursor for a commit belonging to the main branch, which is not
    /// currently checked out.
    pub commit_main: &'static str,
    /// Cursor for a commit belonging to the main branch, which is currently
    /// checked out.
    pub commit_main_head: &'static str,
    /// Cursor for a hidden commit belonging to the main branch.
    pub commit_main_hidden: &'static str,
    /// Cursor for a hidden commit belonging to the main branch, which is
    /// currently checked out.
    pub commit_main_hidden_head: &'static str,
    /// Bullet-point character for a list of newline-separated items.
    pub bullet_point: &'static str,
    /// Arrow character used when printing a commit cycle.
    pub cycle_arrow: &'static str,
    /// Horizontal line character used when printing a commit cycle.
    pub cycle_horizontal_line: &'static str,
    /// Vertical line character used when printing a commit cycle.
    pub cycle_vertical_line: &'static str,
    /// Corner at the upper left of the arrow used when printing a commit
    /// cycle.
    pub cycle_upper_left_corner: &'static str,
    /// Corner at the lower left of the arrow used when printing a commit
    /// cycle.
    pub cycle_lower_left_corner: &'static str,
}

impl Glyphs {
    /// Glyphs used for output to a text file or non-TTY.
    pub fn text() -> (r: Glyphs)
        ensures
            !r.should_write_ansi_escape_codes,
            r.line@ == "|"@,
            r.line_with_offshoot@ == "|"@,
            r.vertical_ellipsis@ == ":"@,
            r.slash@ == "\\"@,
            r.commit_visible@ == "o"@,
            r.commit_visible_head@ == "@"@,
            r.commit_hidden@ == "x"@,
            r.commit_hidden_head@ == "%"@,
            r.commit_main@ == "O"@,
            r.commit_main_head@ == "@"@,
            r.commit_main_hidden@ == "X"@,
            r.commit_main_hidden_head@ == "%"@,
            r.bullet_point@ == "-"@,
            r.cycle_arrow@ == ">"@,
            r.cycle_horizontal_line@ == "-"@,
            r.cycle_vertical_line@ == "|"@,
            r.cycle_upper_left_corner@ == ","@,
            r.cycle_lower_left_corner@ == "`"@,
    {
        Glyphs {
            should_write_ansi_escape_codes: false,
            line: "|",
            line_with_offshoot: "|",
            vertical_ellipsis: ":",
            slash: "\\",
            commit_visible: "o",
            commit_visible_head: "@",
            commit_hidden: "x",
            commit_hidden_head: "%",
            commit_main: "O",
            commit_main_head: "@",
            commit_main_hidden: "X",
            commit_main_hidden_head: "%",
            bullet_point: "-",
            cycle_arrow: ">",
            cycle_horizontal_line: "-",
            cycle_vertical_line: "|",
            cycle_upper_left_corner: ",",
            cycle_lower_left_corner: "`",
        }
    }

    /// Glyphs used for output to a TTY.
    pub fn pretty() -> (r: Glyphs)
        ensures
            r.should_write_ansi_escape_codes,
            r.line@ == "┃"@,
            r.line_with_offshoot@ == "┣"@,
            r.vertical_ellipsis@ == "⋮"@,
            r.slash@ == "━┓"@,
            r.commit_visible@ == "◯"@,
            r.commit_visible_head@ == "●"@,
            r.commit_hidden@ == "✕"@,
            r.commit_hidden_head@ == "⦻"@,
            r.commit_main@ == "◇"@,
            r.commit_main_head@ == "◆"@,
            r.commit_main_hidden@ == "✕"@,
            r.commit_main_hidden_head@ == "❖"@,
            r.bullet_point@ == "•"@,
            r.cycle_arrow@ == "ᐅ"@,
            r.cycle_horizontal_line@ == "─"@,
            r.cycle_vertical_line@ == "│"@,
            r.cycle_upper_left_corner@ == "┌"@,
            r.cycle_lower_left_corner@ == "└"@,
    {
        Glyphs {
            should_write_ansi_escape_codes: true,
            line: "┃",
            line_with_offshoot: "┣",
            vertical_ellipsis: "⋮",
            slash: "━┓",
            commit_visible: "◯",
            commit_visible_head: "●",
            commit_hidden: "✕",
            commit_hidden_head: "⦻",
            commit_main: "◇",
            commit_main_head: "◆",
            commit_main_hidden: "✕",
            commit_main_hidden_head: "❖",
            bullet_point: "•",
            cycle_arrow: "ᐅ",
            cycle_horizontal_line: "─",
            cycle_vertical_line: "│",
            cycle_upper_left_corner: "┌",
            cycle_lower_left_corner: "└",
        }
    }
}

/// A color that a piece of text is shown in.
#[derive(Clone, Copy, Debug, PartialEq, Eq, Structural)]
pub enum Color {
    DarkYellow,
    DarkGreen,
    LightGreen,
    LightBlack,
}

/// A piece of text, in a color or plain.
#[derive(Debug, PartialEq, Eq)]
pub struct StyledText {
    pub text: String,
    pub color: Option<Color>,
}

impl View for StyledText {
    type V = (Seq<char>, Option<Color>);

    open spec fn view(&self) -> (Seq<char>, Option<Color>) {
        (self.text@, self.color)
    }
}

/// The views of optional pieces of text.
pub open spec fn opt_styled_views(ds: Seq<Option<StyledText>>) -> Seq<Option<(Seq<char>, Option<Color>)>> {
    ds.map_values(|d: Option<StyledText>| match d {
        Some(t) => Some(t@),
        None => None,
    })
}

/// The views of pieces of text.
pub open spec fn styled_views(ds: Seq<StyledText>) -> Seq<(Seq<char>, Option<Color>)> {
    ds.map_values(|d: StyledText| d@)
}

/// The pieces that are present, in order.
pub open spec fn present_spec(ds: Seq<Option<(Seq<char>, Option<Color>)>>) -> Seq<(Seq<char>, Option<Color>)>
    decreases ds.len(),
{
    if ds.len() == 0 {
        Seq::empty()
    } else {
        match ds.last() {
            Some(d) => present_spec(ds.drop_last()).push(d),
            None => present_spec(ds.drop_last()),
        }
    }
}

/// The pieces with a plain space between each two.
pub open spec fn spaced_spec(ds: Seq<(Seq<char>, Option<Color>)>) -> Seq<(Seq<char>, Option<Color>)>
    decreases ds.len(),
{
    if ds.len() <= 1 {
        ds
    } else {
        spaced_spec(ds.drop_last()).push((seq![' '], None)).push(ds.last())
    }
}

/// Render the descriptions that apply, with a space between each two.
pub fn join_descriptions(descriptions: Vec<Option<StyledText>>) -> (r: Vec<StyledText>)
    ensures
        styled_views(r@) == spaced_spec(present_spec(opt_styled_views(descriptions@))),
{
    let ghost all = opt_styled_views(descriptions@);
    let mut descriptions = descriptions;
    let mut reversed: Vec<StyledText> = Vec::new();
    assert(all.take(descriptions@.len() as int) =~= all);
    assert(styled_views(reversed@).reverse() =~= Seq::<(Seq<char>, Option<Color>)>::empty());
    assert(present_spec(all) + Seq::<(Seq<char>, Option<Color>)>::empty() =~= present_spec(all));
    while descriptions.len() > 0
        invariant
            descriptions@.len() <= all.len(),
            opt_styled_views(descriptions@) == all.take(descriptions@.len() as int),
            present_spec(all) == present_spec(all.take(descriptions@.len() as int)) + styled_views(reversed@).reverse(),
        decreases descriptions@.len(),
    {
        let ghost n = descriptions@.len();
        let d = descriptions.pop().unwrap();
        let ghost t = all.take(n as int);
        assert(t.drop_last() =~= all.take(n - 1));
        assert(opt_styled_views(descriptions@) =~= all.take(n - 1));
        match d {
            Some(text) => {
                let ghost before = styled_views(reversed@);
                reversed.push(text);
                assert(styled_views(reversed@) =~= before.push(t.last()->0));
                assert(before.push(t.last()->0).reverse() =~= seq![t.last()->0] + before.reverse());
                assert(present_spec(t) =~= present_spec(t.drop_last()).push(t.last()->0));
                assert(present_spec(t.drop_last()).push(t.last()->0) + before.reverse() =~= present_spec(
                    t.drop_last(),
                ) + (seq![t.last()->0] + before.reverse()));
            },
            None => {},
        }
    }
    assert(all.take(0) =~= Seq::<Option<(Seq<char>, Option<Color>)>>::empty());
    let ghost p = present_spec(all);
    assert(p =~= styled_views(reversed@).reverse());
    let mut result: Vec<StyledText> = Vec::new();
    let mut first = true;
    while reversed.len() > 0
        invariant
            first == (styled_views(reversed@).len() == p.len()),
            styled_views(reversed@).len() <= p.len(),
            styled_views(reversed@).reverse() == p.skip(p.len() - styled_views(reversed@).len()),
            styled_views(result@) == spaced_spec(p.take(p.len() - styled_views(reversed@).len())),
        decreases reversed@.len(),
    {
        let ghost k = p.len() - styled_views(reversed@).len();
        let ghost before_rev = styled_views(reversed@);
        let text = reversed.pop().unwrap();
        assert(before_rev.reverse()[0] == text@);
        assert(p[k] == text@);
        assert(styled_views(reversed@) =~= before_rev.drop_last());
        assert(before_rev.drop_last().reverse() =~= before_rev.reverse().skip(1));
        assert(p.skip(k).skip(1) =~= p.skip(k + 1));
        assert(styled_views(reversed@).reverse() =~= p.skip(k + 1));
        assert(p.take(k + 1).drop_last() =~= p.take(k));
        let ghost res_before = styled_views(result@);
        if !first {
            proof {
                reveal_strlit(" ");
            }
            let space = StyledText { text: " ".to_owned(), color: None };
            assert(space@ == (seq![' '], Option::<Color>::None));
            result.push(space);
            assert(styled_views(result@) =~= res_before.push((seq![' '], None)));
        }
        let ghost mid = styled_views(result@);
        result.push(text);
        assert(styled_views(result@) =~= mid.push(text@));
        if first {
            assert(p.take(1) =~= seq![text@]);
            assert(styled_views(result@) =~= seq![text@]);
        } else {
            assert(styled_views(result@) =~= res_before.push((seq![' '], None)).push(text@));
        }
        first = false;
    }
    assert(p.take(p.len() as int) =~= p);
    result
}

} // verus!
