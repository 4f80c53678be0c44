use trendy_cli::config::{get_api_key, Config};
use trendy_cli::display::{hn_story_lines, model_lines, reddit_post_lines, ORANGE, RESET};
use trendy_cli::fetch::ai::{
    bearer_header, model_or_default, require_api_key, short_description, AiError, ChatRequest,
    ChatResponse, Choice, ModelsData, ResponseMessage, DEFAULT_MODEL,
};
use trendy_cli::fetch::hn::{story_url, top_ids, HNStory};
use trendy_cli::fetch::rd::{subreddit_url, PostData, RedditPost};

fn s(x: &str) -> Option<String> {
    Some(x.to_string())
}

#[test]
fn api_key_from_command_line_wins_and_is_saved() {
    let r = get_api_key(s("cli"), s("file"), s("env"));
    assert_eq!(r.key, s("cli"));
    assert!(r.save);
}

#[test]
fn api_key_from_config_comes_before_environment() {
    let r = get_api_key(None, s("file"), s("env"));
    assert_eq!(r.key, s("file"));
    assert!(!r.save);
}

#[test]
fn api_key_from_environment_last() {
    let r = get_api_key(None, None, s("env"));
    assert_eq!(r.key, s("env"));
    assert!(!r.save);
    let none = get_api_key(None, None, None);
    assert_eq!(none.key, None);
    assert!(!none.save);
}

#[test]
fn config_defaults_and_key() {
    assert_eq!(Config::default().api_key, None);
    assert_eq!(Config::with_api_key("k".to_string()).api_key, s("k"));
}

#[test]
fn request_holds_one_user_message() {
    let r = ChatRequest::user_prompt("m".to_string(), "hi".to_string(), true);
    assert_eq!(r.model, "m");
    assert!(r.stream);
    assert_eq!(r.messages.len(), 1);
    assert_eq!(r.messages[0].role, "user");
    assert_eq!(r.messages[0].content, "hi");
}

#[test]
fn bearer_header_prefixes_key() {
    assert_eq!(bearer_header("abc"), "Bearer abc");
}

#[test]
fn missing_api_key_is_an_error() {
    assert_eq!(require_api_key(s("k")).ok(), s("k"));
    match require_api_key(None) {
        Err(e @ AiError::MissingApiKey) => {
            assert_eq!(e.message(), "HACKCLUB_API_KEY must be set")
        }
        Ok(_) => panic!("expected an error"),
    }
}

#[test]
fn empty_model_falls_back_to_default() {
    assert_eq!(model_or_default(""), DEFAULT_MODEL);
    assert_eq!(DEFAULT_MODEL, "moonshotai/kimi-k2.5");
    assert_eq!(model_or_default("x/y"), "x/y");
}

#[test]
fn first_content_reads_first_choice() {
    let r = ChatResponse {
        choices: vec![
            Choice { message: ResponseMessage { content: "first".to_string() } },
            Choice { message: ResponseMessage { content: "second".to_string() } },
        ],
    };
    assert_eq!(r.first_content(), "first");
}

#[test]
fn short_description_cuts_long_text() {
    let long = "a".repeat(150);
    assert_eq!(short_description(&long), format!("{}...", "a".repeat(100)));
    let exact = "b".repeat(100);
    assert_eq!(short_description(&exact), exact);
    assert_eq!(short_description("short"), "short");
}

#[test]
fn short_description_counts_bytes() {
    let text = format!("{}{}", "é".repeat(50), "tail");
    assert_eq!(short_description(&text), format!("{}...", "é".repeat(50)));
}

#[test]
fn story_url_uses_decimal_id() {
    assert_eq!(story_url(8863), "https://hacker-news.firebaseio.com/v0/item/8863.json");
}

#[test]
fn top_ids_takes_the_first_ones() {
    let ids = vec![5, 4, 3, 2, 1];
    assert_eq!(top_ids(&ids, 3), vec![5, 4, 3]);
    assert_eq!(top_ids(&ids, 10), ids);
    assert_eq!(top_ids(&ids, 0), Vec::<u64>::new());
}

#[test]
fn subreddit_url_holds_name_and_limit() {
    assert_eq!(
        subreddit_url("programming", 5),
        "https://www.reddit.com/r/programming/top.json?limit=5"
    );
}

#[test]
fn story_card_lines() {
    let story = HNStory { title: s("Rust 2.0"), url: None, score: Some(512) };
    let lines = hn_story_lines(&story);
    assert_eq!(lines[0], format!("| Title: {:.<26} |", "Rust 2.0"));
    assert_eq!(lines[1], format!("| URL:   {:.<26} |", "N/A"));
    assert_eq!(lines[2], format!("| Score: {:.<26} |", 512));
    assert_eq!(lines[3], format!("| {:-<30} ", ""));
    let none = HNStory { title: None, url: None, score: None };
    assert_eq!(hn_story_lines(&none)[2], format!("| Score: {:.<26} |", "N/A"));
}

#[test]
fn post_card_lines() {
    let long = "x".repeat(40);
    let post = RedditPost {
        data: PostData { title: s(&long), score: 7, url: s("https://e.org/é") },
    };
    let lines = reddit_post_lines(&post);
    assert_eq!(lines[0], format!("| Title: {:.<26} |", long));
    assert_eq!(lines[1], format!("| URL:   {:.<26} |", "https://e.org/é"));
    assert_eq!(lines[2], format!("| UpVotes: {:.<23} |", 7u32));
    assert_eq!(lines[3], format!("| {:-<30} ", ""));
}

#[test]
fn model_entry_lines() {
    let long = "d".repeat(120);
    let m = ModelsData { id: "a/b".to_string(), name: s("B"), description: Some(long) };
    assert_eq!(
        model_lines(&m),
        vec![
            format!("{}ID:{} {}", ORANGE, RESET, "a/b"),
            format!("{}Name:{} {}", ORANGE, RESET, "B"),
            format!("{}Desc:{} {}...", ORANGE, RESET, "d".repeat(100)),
            String::new(),
        ]
    );
    let bare = ModelsData { id: "x".to_string(), name: None, description: None };
    assert_eq!(model_lines(&bare), vec![format!("{}ID:{} {}", ORANGE, RESET, "x"), String::new()]);
}
