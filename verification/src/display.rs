//! The text shown for stories, posts and the streamed answer.

use vstd::prelude::*;
use crate::text::{pad_right, padded_right, string_views};
use crate::fetch::ai::{description_limit, short_description, shortened, ModelsData};
use vstd::utf8::{encode_utf8, is_char_boundary};
use crate::number::{decimal, decimal_string};
use crate::fetch::hn::HNStory;
use crate::fetch::rd::RedditPost;

verus! {

/// Resets the terminal colour.
pub const RESET: &'static str = "\x1b[0m";

/// Clears the screen and moves to its top.
pub const CLEAR: &'static str = "\x1b[2J\x1b[H";

/// The orange colour of the interface.
pub const ORANGE: &'static str = "\x1b[38;2;255;165;0m";

/// The red colour of error messages.
pub const RED: &'static str = "\x1b[0;31m";

/// Returns to the start of the line and clears it.
pub const CLEAR_LINE: &'static str = "\r\x1b[K";

/// The shown value of an optional text: the text, or `N/A`.
pub open spec fn or_na(s: Option<Seq<char>>) -> Seq<char> {
    match s {
        Some(t) => t,
        None => "N/A"@,
    }
}

/// A field of a card: `label`, the value left-aligned in `width` characters
/// filled with dots, and a closing bar.
pub open spec fn card_field(label: Seq<char>, value: Seq<char>, width: nat) -> Seq<char> {
    label + padded_right(value, '.', width) + " |"@
}

/// The line that closes a card.
pub open spec fn card_rule() -> Seq<char> {
    "| "@ + padded_right(Seq::empty(), '-', 30) + " "@
}

fn field_line(label: &str, value: &str, width: usize) -> (s: String)
    ensures
        s@ == card_field(label@, value@, width as nat),
{
    let mut s = label.to_owned();
    let padded = pad_right(value, '.', width);
    s.append(padded.as_str());
    s.append(" |");
    s
}

fn rule_line() -> (s: String)
    ensures
        s@ == card_rule(),
{
    let mut s = "| ".to_owned();
    let dashes = pad_right("", '-', 30);
    assert(""@ =~= Seq::<char>::empty()) by {
        reveal_strlit("");
    }
    s.append(dashes.as_str());
    s.append(" ");
    s
}

fn text_or_na(s: &Option<String>) -> (r: &str)
    ensures
        r@ == or_na(s.deep_view()),
{
    match s {
        Some(t) => t.as_str(),
        None => "N/A",
    }
}

/// The lines of a story's card (between the colour changes).
pub fn hn_story_lines(story: &HNStory) -> (r: Vec<String>)
    ensures
        r@.len() == 4,
        r@[0]@ == card_field("| Title: "@, or_na(story.title.deep_view()), 26),
        r@[1]@ == card_field("| URL:   "@, or_na(story.url.deep_view()), 26),
        r@[2]@ == card_field(
            "| Score: "@,
            match story.score {
                Some(n) => decimal(n as nat),
                None => "N/A"@,
            },
            26,
        ),
        r@[3]@ == card_rule(),
{
    let mut r: Vec<String> = Vec::new();
    r.push(field_line("| Title: ", text_or_na(&story.title), 26));
    r.push(field_line("| URL:   ", text_or_na(&story.url), 26));
    let score = match story.score {
        Some(n) => decimal_string(n as u64),
        None => "N/A".to_owned(),
    };
    r.push(field_line("| Score: ", score.as_str(), 26));
    r.push(rule_line());
    r
}

/// The lines of a post's card (between the colour changes).
pub fn reddit_post_lines(post: &RedditPost) -> (r: Vec<String>)
    ensures
        r@.len() == 4,
        r@[0]@ == card_field("| Title: "@, or_na(post.data.title.deep_view()), 26),
        r@[1]@ == card_field("| URL:   "@, or_na(post.data.url.deep_view()), 26),
        r@[2]@ == card_field("| UpVotes: "@, decimal(post.data.score as nat), 23),
        r@[3]@ == card_rule(),
{
    let mut r: Vec<String> = Vec::new();
    r.push(field_line("| Title: ", text_or_na(&post.data.title), 26));
    r.push(field_line("| URL:   ", text_or_na(&post.data.url), 26));
    let score = decimal_string(post.data.score as u64);
    r.push(field_line("| UpVotes: ", score.as_str(), 23));
    r.push(rule_line());
    r
}



/// A labelled line of a model's entry: the label in orange, then the value.
pub open spec fn labelled(label: Seq<char>, value: Seq<char>) -> Seq<char> {
    ORANGE@ + label + RESET@ + " "@ + value
}

/// The lines of a model's entry: its id, its name and its (shortened)
/// description when it has them, and an empty line.
pub open spec fn model_entry(
    id: Seq<char>,
    name: Option<Seq<char>>,
    description: Option<Seq<char>>,
) -> Seq<Seq<char>> {
    seq![labelled("ID:"@, id)] + match name {
        Some(n) => seq![labelled("Name:"@, n)],
        None => Seq::empty(),
    } + match description {
        Some(d) => seq![labelled("Desc:"@, shortened(d))],
        None => Seq::empty(),
    } + seq![""@]
}

fn labelled_line(label: &str, value: &str) -> (s: String)
    ensures
        s@ == labelled(label@, value@),
{
    let mut s = ORANGE.to_owned();
    s.append(label);
    s.append(RESET);
    s.append(" ");
    s.append(value);
    s
}

/// The lines of a model's entry in the model list. A description longer
/// than 100 bytes must have a character boundary at byte 100.
pub fn model_lines(model: &ModelsData) -> (r: Vec<String>)
    requires
        model.description matches Some(d) ==> (encode_utf8(d@).len() > description_limit()
            ==> is_char_boundary(encode_utf8(d@), description_limit() as int)),
    ensures
        string_views(r@) == model_entry(
            model.id@,
            model.name.deep_view(),
            model.description.deep_view(),
        ),
{
    let mut r: Vec<String> = Vec::new();
    r.push(labelled_line("ID:", model.id.as_str()));
    let ghost after_id = string_views(r@);
    match &model.name {
        Some(n) => r.push(labelled_line("Name:", n.as_str())),
        None => {},
    }
    let ghost after_name = string_views(r@);
    match &model.description {
        Some(d) => {
            let short = short_description(d.as_str());
            r.push(labelled_line("Desc:", short.as_str()));
        },
        None => {},
    }
    let ghost after_desc = string_views(r@);
    r.push("".to_owned());
    assert(string_views(r@) =~= after_desc.push(""@));
    assert(after_id =~= seq![labelled("ID:"@, model.id@)]);
    assert(after_name =~= after_id + match model.name.deep_view() {
        Some(n) => seq![labelled("Name:"@, n)],
        None => Seq::empty(),
    });
    assert(after_desc =~= after_name + match model.description.deep_view() {
        Some(d) => seq![labelled("Desc:"@, shortened(d))],
        None => Seq::<Seq<char>>::empty(),
    });
    r
}

// ---------------------------------------------------------------------------
// The live view of a streamed answer
// ---------------------------------------------------------------------------

/// The number of spinner frames.
pub open spec fn frame_count() -> nat {
    10
}

/// The spinner frame number `i` (`i < 10`).
pub open spec fn frame_text(i: nat) -> Seq<char> {
    if i == 0 { "\u{280b}"@ }
    else if i == 1 { "\u{2819}"@ }
    else if i == 2 { "\u{2839}"@ }
    else if i == 3 { "\u{2838}"@ }
    else if i == 4 { "\u{283c}"@ }
    else if i == 5 { "\u{2834}"@ }
    else if i == 6 { "\u{2826}"@ }
    else if i == 7 { "\u{2827}"@ }
    else if i == 8 { "\u{2807}"@ }
    else { "\u{280f}"@ }
}

fn frame(i: usize) -> (s: &'static str)
    requires
        i < 10,
    ensures
        s@ == frame_text(i as nat),
{
    if i == 0 { "\u{280b}" }
    else if i == 1 { "\u{2819}" }
    else if i == 2 { "\u{2839}" }
    else if i == 3 { "\u{2838}" }
    else if i == 4 { "\u{283c}" }
    else if i == 5 { "\u{2834}" }
    else if i == 6 { "\u{2826}" }
    else if i == 7 { "\u{2827}" }
    else if i == 8 { "\u{2807}" }
    else { "\u{280f}" }
}

/// What is printed for the first text of the answer.
pub open spec fn first_text_output(text: Seq<char>) -> Seq<char> {
    "\r\x1b[2K"@ + CLEAR_LINE@ + ORANGE@ + "AI\u{25ba} "@ + text + RESET@
}

/// What is printed for any later text of the answer.
pub open spec fn next_text_output(text: Seq<char>) -> Seq<char> {
    ORANGE@ + text + RESET@
}

/// What is printed for a spinner tick showing frame `i`.
pub open spec fn tick_output(i: nat) -> Seq<char> {
    "\r"@ + CLEAR_LINE@ + ORANGE@ + frame_text(i) + " Thinking..."@ + RESET@
}

/// The live view of an answer being streamed (`render_ai_stream`): a spinner
/// turns until the first text arrives; texts are then printed as they come.
pub struct AnswerView {
    frame: usize,
    rendered: bool,
}

impl AnswerView {
    #[verifier::type_invariant]
    spec fn frame_in_range(self) -> bool {
        self.frame < frame_count()
    }

    /// The spinner frame shown at the next tick.
    pub closed spec fn next_frame(self) -> nat {
        self.frame as nat
    }

    /// Whether some text of the answer has been printed.
    pub closed spec fn has_text(self) -> bool {
        self.rendered
    }

    /// The view before anything arrived: no text, spinner at its first frame.
    pub fn new() -> (v: AnswerView)
        ensures
            v.next_frame() == 0,
            !v.has_text(),
    {
        AnswerView { frame: 0, rendered: false }
    }

    /// Whether some text of the answer has been printed.
    pub fn rendered(&self) -> (b: bool)
        ensures
            b == self.has_text(),
    {
        self.rendered
    }

    /// Text of the answer arrived (the pieces that came together, joined):
    /// returns what to print. The first text clears the spinner line and
    /// opens the answer.
    pub fn on_text(&mut self, text: &str) -> (out: String)
        ensures
            out@ == (if old(self).has_text() {
                next_text_output(text@)
            } else {
                first_text_output(text@)
            }),
            final(self).has_text(),
            final(self).next_frame() == old(self).next_frame(),
    {
        proof {
            use_type_invariant(&*self);
        }
        let mut out = if self.rendered {
            ORANGE.to_owned()
        } else {
            let mut o = "\r\x1b[2K".to_owned();
            o.append(CLEAR_LINE);
            o.append(ORANGE);
            o.append("AI\u{25ba} ");
            o
        };
        out.append(text);
        out.append(RESET);
        self.rendered = true;
        out
    }

    /// Nothing arrived for a while: until the first text, returns the next
    /// spinner frame to print and moves the spinner on; after it, nothing.
    pub fn on_tick(&mut self) -> (out: Option<String>)
        ensures
            old(self).has_text() ==> out is None && final(self).has_text()
                && final(self).next_frame() == old(self).next_frame(),
            !old(self).has_text() ==> (out matches Some(o) && o@ == tick_output(
                old(self).next_frame(),
            )),
            !old(self).has_text() ==> final(self).next_frame() == (old(self).next_frame() + 1)
                % frame_count() && !final(self).has_text(),
    {
        proof {
            use_type_invariant(&*self);
        }
        if self.rendered {
            return None;
        }
        let mut out = "\r".to_owned();
        out.append(CLEAR_LINE);
        out.append(ORANGE);
        out.append(frame(self.frame));
        out.append(" Thinking...");
        out.append(RESET);
        self.frame = if self.frame + 1 == 10 { 0 } else { self.frame + 1 };
        Some(out)
    }

    /// The answer ended: when no text was printed, the spinner line is
    /// cleared.
    pub fn on_close(&self) -> (out: Option<String>)
        ensures
            self.has_text() ==> out is None,
            !self.has_text() ==> (out matches Some(o) && o@ == "\r"@ + CLEAR_LINE@),
    {
        if self.rendered {
            None
        } else {
            let mut out = "\r".to_owned();
            out.append(CLEAR_LINE);
            Some(out)
        }
    }
}

} // verus!
