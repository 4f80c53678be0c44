use trendy_cli::display::{AnswerView, CLEAR_LINE, ORANGE, RESET};
use trendy_cli::fetch::ai::DEFAULT_MODEL;
use trendy_cli::repl::{parse_command, parse_limit, Command, Session};

#[test]
fn commands_are_recognised() {
    assert!(matches!(parse_command("/quit"), Command::Quit));
    assert!(matches!(parse_command("/clear"), Command::Clear));
    assert!(matches!(parse_command("/rd"), Command::Reddit));
    assert!(matches!(parse_command("/hn"), Command::HackerNews));
    assert!(matches!(parse_command("/model"), Command::ChooseModel));
    assert!(matches!(parse_command("/models"), Command::ListModels));
    assert!(matches!(parse_command("/help"), Command::Help));
    assert!(matches!(parse_command(""), Command::Nothing));
}

#[test]
fn other_lines_are_prompts() {
    match parse_command("/quitting now") {
        Command::Ask(p) => assert_eq!(p, "/quitting now"),
        _ => panic!("expected a prompt"),
    }
    match parse_command("What is Rust?") {
        Command::Ask(p) => assert_eq!(p, "What is Rust?"),
        _ => panic!("expected a prompt"),
    }
}

#[test]
fn limit_must_be_positive_number() {
    assert_eq!(parse_limit("5"), Some(5));
    assert_eq!(parse_limit("+12"), Some(12));
    assert_eq!(parse_limit("0"), None);
    assert_eq!(parse_limit("-3"), None);
    assert_eq!(parse_limit("ten"), None);
    assert_eq!(parse_limit(""), None);
}

#[test]
fn session_uses_default_until_a_model_is_chosen() {
    let mut session = Session::new();
    assert_eq!(session.prompt_model(), DEFAULT_MODEL);
    session.choose_model("openai/gpt-5".to_string());
    assert_eq!(session.prompt_model(), "openai/gpt-5");
    session.choose_model(String::new());
    assert_eq!(session.prompt_model(), DEFAULT_MODEL);
}

#[test]
fn spinner_turns_until_first_text() {
    let mut view = AnswerView::new();
    let frames = ["⠋", "⠙", "⠹", "⠸", "⠼", "⠴", "⠦", "⠧", "⠇", "⠏"];
    for i in 0..23 {
        let out = view.on_tick().expect("spinner frame");
        assert_eq!(
            out,
            format!("\r{}{}{} Thinking...{}", CLEAR_LINE, ORANGE, frames[i % 10], RESET)
        );
    }
    assert!(!view.rendered());
    let first = view.on_text("Hi");
    assert_eq!(first, format!("\r\x1b[2K{}{}AI► {}{}", CLEAR_LINE, ORANGE, "Hi", RESET));
    assert!(view.rendered());
    assert_eq!(view.on_tick(), None);
    assert_eq!(view.on_text(" there"), format!("{}{}{}", ORANGE, " there", RESET));
    assert_eq!(view.on_close(), None);
}

#[test]
fn closing_without_text_clears_spinner_line() {
    let mut view = AnswerView::new();
    let _ = view.on_tick();
    assert_eq!(view.on_close(), Some(format!("\r{}", CLEAR_LINE)));
    assert!(!view.rendered());
}
