//! The interactive mode: what a typed line asks for, the chosen model, the
//! limit prompt, and the live view of a streamed answer.

use vstd::prelude::*;
use crate::text::{chars_of, push_chars};
use crate::number::{parse_unsigned, parse_usize};
use crate::fetch::ai::{model_or_default, DEFAULT_MODEL};
use crate::display::{CLEAR_LINE, ORANGE, RESET};

verus! {

/// What a typed line asks for.
pub ghost enum Request {
    Nothing,
    Quit,
    Clear,
    Reddit,
    HackerNews,
    ChooseModel,
    ListModels,
    Help,
    Ask(Seq<char>),
}

/// What a typed line asks for, as an executable value.
pub enum Command {
    /// An empty line: nothing to do.
    Nothing,
    /// `/quit`
    Quit,
    /// `/clear`
    Clear,
    /// `/rd`
    Reddit,
    /// `/hn`
    HackerNews,
    /// `/model`
    ChooseModel,
    /// `/models`
    ListModels,
    /// `/help`
    Help,
    /// Anything else: a prompt for the model.
    Ask(String),
}

impl View for Command {
    type V = Request;

    open spec fn view(&self) -> Request {
        match self {
            Command::Nothing => Request::Nothing,
            Command::Quit => Request::Quit,
            Command::Clear => Request::Clear,
            Command::Reddit => Request::Reddit,
            Command::HackerNews => Request::HackerNews,
            Command::ChooseModel => Request::ChooseModel,
            Command::ListModels => Request::ListModels,
            Command::Help => Request::Help,
            Command::Ask(p) => Request::Ask(p@),
        }
    }
}

/// The request of the (already trimmed) line `line`.
pub open spec fn request_of(line: Seq<char>) -> Request {
    if line.len() == 0 {
        Request::Nothing
    } else if line == "/quit"@ {
        Request::Quit
    } else if line == "/clear"@ {
        Request::Clear
    } else if line == "/rd"@ {
        Request::Reddit
    } else if line == "/hn"@ {
        Request::HackerNews
    } else if line == "/model"@ {
        Request::ChooseModel
    } else if line == "/models"@ {
        Request::ListModels
    } else if line == "/help"@ {
        Request::Help
    } else {
        Request::Ask(line)
    }
}

fn same_chars(a: &[char], b: &[char]) -> (r: bool)
    ensures
        r == (a@ == b@),
{
    if a.len() != b.len() {
        return false;
    }
    let mut i: usize = 0;
    while i < a.len()
        invariant
            i <= a@.len() == b@.len(),
            forall|k: int| 0 <= k < i ==> a@[k] == b@[k],
        decreases a@.len() - i,
    {
        if a[i] != b[i] {
            return false;
        }
        i = i + 1;
    }
    assert(a@ =~= b@);
    true
}

fn is_word(line: &[char], word: &str) -> (r: bool)
    ensures
        r == (line@ == word@),
{
    let w = chars_of(word);
    same_chars(line, w.as_slice())
}

/// Reads a typed (already trimmed) line: the commands of the interactive
/// mode, nothing for an empty line, and a prompt for anything else.
pub fn parse_command(line: &str) -> (c: Command)
    ensures
        c@ == request_of(line@),
{
    let v = chars_of(line);
    let s = v.as_slice();
    if v.len() == 0 {
        Command::Nothing
    } else if is_word(s, "/quit") {
        Command::Quit
    } else if is_word(s, "/clear") {
        Command::Clear
    } else if is_word(s, "/rd") {
        Command::Reddit
    } else if is_word(s, "/hn") {
        Command::HackerNews
    } else if is_word(s, "/model") {
        Command::ChooseModel
    } else if is_word(s, "/models") {
        Command::ListModels
    } else if is_word(s, "/help") {
        Command::Help
    } else {
        Command::Ask(line.to_owned())
    }
}

/// The limit typed at the limit prompt: a positive number as `str::parse`
/// reads it; `None` asks for another try.
pub open spec fn limit_of(raw: Seq<char>) -> Option<nat> {
    match parse_unsigned(raw, usize::MAX as nat) {
        Some(n) => if n > 0 { Some(n) } else { None },
        None => None,
    }
}

/// Reads the (already trimmed) answer to the limit prompt.
pub fn parse_limit(raw: &str) -> (r: Option<usize>)
    ensures
        match r {
            Some(n) => limit_of(raw@) == Some(n as nat),
            None => limit_of(raw@) is None,
        },
{
    match parse_usize(raw) {
        Some(n) => if n > 0 { Some(n) } else { None },
        None => None,
    }
}

/// The model that a prompt goes to when `chosen` is the chosen name.
pub open spec fn model_for(chosen: Seq<char>) -> Seq<char> {
    if chosen.len() == 0 {
        DEFAULT_MODEL@
    } else {
        chosen
    }
}

/// The state of the interactive mode: the model chosen with `/model`; empty
/// until one is chosen.
pub struct Session {
    pub model: String,
}

impl Session {
    /// A session where no model was chosen.
    pub fn new() -> (s: Session)
        ensures
            s.model@ == Seq::<char>::empty(),
    {
        Session { model: String::new() }
    }

    /// Takes the (already trimmed) answer to the model prompt as the model.
    pub fn choose_model(&mut self, name: String)
        ensures
            final(self).model@ == name@,
    {
        self.model = name;
    }

    /// The model a prompt goes to: the chosen one, or the default one when
    /// none (or an empty name) was chosen.
    pub fn prompt_model(&self) -> (m: String)
        ensures
            m@ == model_for(self.model@),
    {
        model_or_default(self.model.as_str())
    }
}

/// A prompt goes to the model last chosen, and to the default model when the
/// name chosen last was empty.
pub proof fn lemma_prompt_uses_chosen_model(name: Seq<char>)
    ensures
        name.len() > 0 ==> model_for(name) == name,
        name.len() == 0 ==> model_for(name) == DEFAULT_MODEL@,
{
}

} // verus!
