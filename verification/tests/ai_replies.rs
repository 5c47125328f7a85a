use notevault::ai::{
    build_messages, card_prompts, cards_from_items, cards_from_reply, chat_prompt, chat_reply,
    chat_target, content_of, curl_post_args, drafting_failure, drafting_messages, extract_content,
    in_scope, is_ollama, list_models_args, list_models_reply, stream_reply, strip_code_fence,
    AiCancelRegistry, ChatMessage, ListModelsRequest, SourceText, StreamOutcome, build_ai_state,
    PROMPT_COUNT, PROMPT_FORMAT, PROMPT_HEAD, PROMPT_RULES,
};
use notevault::vault::VaultError;

fn other(e: VaultError) -> String {
    match e {
        VaultError::Other(m) => m,
        _ => panic!("expected Other"),
    }
}

#[test]
fn cancel_registry() {
    let mut r: AiCancelRegistry = build_ai_state();
    assert!(!r.is_cancelled("a"));
    r.cancel("a");
    r.cancel("a");
    assert!(r.is_cancelled("a"));
    assert!(!r.is_cancelled("b"));
    r.clear("a");
    assert!(!r.is_cancelled("a"));
    let d = AiCancelRegistry::default();
    assert!(!d.is_cancelled("a"));
}

#[test]
fn code_fences_are_stripped() {
    assert_eq!(strip_code_fence("```json\n[{\"a\":1}]\n```"), "[{\"a\":1}]");
    assert_eq!(strip_code_fence("  Here you go: [1, 2] thanks "), "[1, 2]");
    assert_eq!(strip_code_fence("```\nno brackets\n``````"), "no brackets");
    assert_eq!(strip_code_fence("```"), "");
    assert_eq!(strip_code_fence("] then ["), "] then [");
    assert_eq!(strip_code_fence("plain"), "plain");
}

#[test]
fn drafted_cards_from_a_reply() {
    let reply = "```json\n[{\"question\":\"Q1\",\"answer\":\"A1\",\"cardType\":\"reverse\"},\
                 {\"question\":\"Q2\",\"answer\":\"A2\",\"card_type\":\"cloze\"},\
                 {\"question\":\"Q3\",\"answer\":\"A3\",\"cardType\":\"weird\"},\
                 {\"question\":\"Q4\",\"answer\":\"A4\",\"cardType\":7,\"card_type\":\"cloze\"},\
                 {\"question\":\"\",\"answer\":\"A5\"},\
                 {\"question\":\"Q6\"}]\n```";
    let r = cards_from_reply(reply).unwrap();
    let got: Vec<(&str, &str, &str)> = r
        .cards
        .iter()
        .map(|c| (c.question.as_str(), c.answer.as_str(), c.card_type.as_str()))
        .collect();
    assert_eq!(
        got,
        vec![("Q1", "A1", "reverse"), ("Q2", "A2", "cloze"), ("Q3", "A3", "basic"), ("Q4", "A4", "basic")]
    );
    assert!(r.cards.iter().all(|c| c.source.is_empty()));
    assert_eq!(r.raw, reply);
}

#[test]
fn drafting_errors() {
    let e = other(cards_from_reply("not json at all").unwrap_err());
    assert!(e.starts_with("LLM 返回的不是合法 JSON: "), "{}", e);
    assert!(e.ends_with("\n---\nnot json at all"), "{}", e);
    let e = other(cards_from_reply("[]").unwrap_err());
    assert_eq!(e, "LLM 没返回任何卡片");
    let e = other(cards_from_items("x", Err("boom".into())).unwrap_err());
    assert_eq!(e, "LLM 返回的不是合法 JSON: boom\n---\nx");
    let long = "é".repeat(500);
    let e = other(cards_from_items(&long, Err("bad".into())).unwrap_err());
    assert_eq!(e, format!("LLM 返回的不是合法 JSON: bad\n---\n{}", &long[..800]));
    assert_eq!(other(drafting_failure("oops")), "LLM 失败: oops");
}

#[test]
fn drafting_prompts() {
    let raw = "---\ntitle: T\n---\nBody of the note";
    let (sys, user) = card_prompts(raw, "English", 0);
    assert_eq!(sys, format!("{}English{}1{}English{}", PROMPT_HEAD, PROMPT_COUNT, PROMPT_RULES, PROMPT_FORMAT));
    assert!(sys.starts_with("你是一个为 English 学习者生成闪卡的助手。\n阅读用户提供的笔记，提取 1 张"));
    assert!(sys.contains("- 使用 English 输出\n\n"));
    assert!(sys.contains("[\n  {\"question\": \"...\", \"answer\": \"...\", \"cardType\": \"basic\"},\n"));
    assert_eq!(user, "# 笔记内容\n\nBody of the note\n\n请生成 1 张闪卡。");
    let (_, user) = card_prompts(&"x".repeat(7000), "中文", 99);
    assert_eq!(user, format!("# 笔记内容\n\n{}\n\n请生成 30 张闪卡。", "x".repeat(6000)));
    let msgs = drafting_messages("s".into(), "u".into());
    assert_eq!((msgs[0].role.as_str(), msgs[0].content.as_str()), ("system", "s"));
    assert_eq!((msgs[1].role.as_str(), msgs[1].content.as_str()), ("user", "u"));
}

#[test]
fn endpoints() {
    assert!(is_ollama("ollama"));
    assert!(!is_ollama("openai"));
    let (url, h) = chat_target("ollama", "http://localhost:11434//", "key");
    assert_eq!(url, "http://localhost:11434/api/chat");
    assert!(h.is_empty());
    let (url, h) = chat_target("openai", "https://api.x.com/v1/", "sk-1");
    assert_eq!(url, "https://api.x.com/v1/chat/completions");
    assert_eq!(h, vec!["Content-Type: application/json", "Authorization: Bearer sk-1"]);
    let (url, h) = chat_target("other", "https://h/v1/chat/completions", "");
    assert_eq!(url, "https://h/v1/chat/completions");
    assert_eq!(h, vec!["Content-Type: application/json"]);
    let args = curl_post_args("120", &h, "{}".into(), url.clone());
    assert_eq!(
        args,
        vec!["-sS", "-X", "POST", "--max-time", "120", "-H", "Content-Type: application/json", "-d", "{}", url.as_str()]
    );
    let req = ListModelsRequest { provider: "openai".into(), base_url: "https://h/v1/".into(), api_key: "k".into() };
    assert_eq!(list_models_args(&req), vec!["-sS", "-X", "GET", "-H", "Authorization: Bearer k", "https://h/v1/models"]);
    let req = ListModelsRequest { provider: "ollama".into(), base_url: "http://l:1".into(), api_key: "k".into() };
    assert_eq!(list_models_args(&req), vec!["-sS", "-X", "GET", "http://l:1/api/tags"]);
}

#[test]
fn reply_content() {
    assert_eq!(extract_content("ollama", "{\"message\":{\"content\":\"hi\"}}"), "hi");
    assert_eq!(extract_content("openai", "{\"choices\":[{\"message\":{\"content\":\"yo\"}}]}"), "yo");
    assert_eq!(extract_content("openai", "{\"choices\":[]}"), "");
    assert_eq!(extract_content("openai", "<html>502</html>"), "<html>502</html>");
    assert_eq!(content_of("raw", None), "raw");
    assert_eq!(content_of("raw", Some(None)), "");
    assert_eq!(content_of("raw", Some(Some("t".into()))), "t");
    assert_eq!(chat_reply("ollama", true, "", "{\"message\":{\"content\":\"x\"}}").unwrap(), "x");
    assert_eq!(other(chat_reply("ollama", false, "err", "out").unwrap_err()), "AI call failed: err out");
    let out = "a".repeat(500);
    assert_eq!(other(chat_reply("o", false, "e", &out).unwrap_err()), format!("AI call failed: e {}", "a".repeat(400)));
}

#[test]
fn stream_outcomes() {
    assert!(matches!(stream_reply(true, "ollama", false, "", ""), StreamOutcome::Cancelled));
    match stream_reply(false, "ollama", false, "bad", "") {
        StreamOutcome::Failed(m) => assert_eq!(m, "AI call failed: bad "),
        _ => panic!(),
    }
    match stream_reply(false, "ollama", true, "", "{\"message\":{\"content\":\"hello\"}}") {
        StreamOutcome::Done { chunk, content } => {
            assert_eq!(chunk.as_deref(), Some("hello"));
            assert_eq!(content, "hello");
        }
        _ => panic!(),
    }
    match stream_reply(false, "ollama", true, "", "{\"message\":{}}") {
        StreamOutcome::Done { chunk, content } => {
            assert_eq!(chunk, None);
            assert_eq!(content, "");
        }
        _ => panic!(),
    }
}

#[test]
fn model_listing() {
    let raw = "{\"models\":[{\"name\":\"llama3\"},{\"size\":1},{\"name\":\"qwen\"}]}";
    assert_eq!(list_models_reply("ollama", true, "", raw).unwrap(), vec!["llama3", "qwen"]);
    let raw = "{\"data\":[{\"id\":\"gpt-4o\"}]}";
    assert_eq!(list_models_reply("openai", true, "", raw).unwrap(), vec!["gpt-4o"]);
    assert!(list_models_reply("openai", true, "", "{}").unwrap().is_empty());
    assert_eq!(other(list_models_reply("openai", false, "down", "").unwrap_err()), "list models failed: down");
    let e = other(list_models_reply("openai", true, "", "nope").unwrap_err());
    assert!(e.starts_with("bad list response: ") && e.ends_with(" - nope"), "{}", e);
}

#[test]
fn chat_context() {
    let sources = vec![
        SourceText { title: "".into(), path: "a.md".into(), text: "---\ntitle: A\n---\n\nAlpha body".into() },
        SourceText { title: "Bee".into(), path: "b.md".into(), text: "Just text".into() },
    ];
    let p = chat_prompt(&sources, "What?");
    assert_eq!(
        p,
        "# 笔记上下文（来自本地检索）\n\n### a.md [a.md]\nAlpha body\n\n### Bee [b.md]\nJust text\n\n\n\n# 用户问题\n\nWhat?"
    );
    let empty = chat_prompt(&vec![], "Q");
    assert_eq!(empty, "# 笔记上下文（来自本地检索）\n\n(本库中没检索到相关内容)\n\n# 用户问题\n\nQ");
    let history = vec![ChatMessage { role: "assistant".into(), content: "earlier".into() }];
    let msgs = build_messages("sys", &history, &sources, "What?");
    assert_eq!(msgs.len(), 3);
    assert_eq!((msgs[0].role.as_str(), msgs[0].content.as_str()), ("system", "sys"));
    assert_eq!((msgs[1].role.as_str(), msgs[1].content.as_str()), ("assistant", "earlier"));
    assert_eq!(msgs[2].role, "user");
    assert_eq!(msgs[2].content, p);
    let long = SourceText { title: "L".into(), path: "l.md".into(), text: "y".repeat(2000) };
    let p = chat_prompt(&vec![long], "q");
    assert!(p.contains(&format!("### L [l.md]\n{}\n\n", "y".repeat(1500))));
    assert!(!p.contains(&"y".repeat(1501)));
}

#[test]
fn scope_filter() {
    assert!(in_scope("notes/a.md", &vec![]));
    assert!(in_scope("notes/a.md", &vec!["journal/".into(), "notes/".into()]));
    assert!(!in_scope("notes/a.md", &vec!["journal/".into()]));
}
