use kona_rs::rag::{format_context, format_hermes_prompt, tokenize};

#[test]
fn test_tokenization() {
    let text = "Rust's safety, speed, and concurrency.";
    let tokens = tokenize(text);
    assert_eq!(tokens, vec!["rust", "s", "safety", "speed", "and", "concurrency"]);
}

#[test]
fn test_hermes_prompt_formatter() {
    let prompt = format_hermes_prompt("system", "context", "query");
    let expected = "<|im_start|>system\nsystem<|im_end|>\n<|im_start|>user\nContext:\ncontext\n\nQuestion: query<|im_end|>\n<|im_start|>assistant\n";
    assert_eq!(prompt, expected);
}

#[test]
fn context_lists_documents_line_by_line() {
    let docs = vec!["Rust is safe".to_string(), "K is terse".to_string()];
    assert_eq!(format_context(&docs), "- Rust is safe\n- K is terse");
    assert_eq!(format_context(&docs[..1]), "- Rust is safe");
    assert_eq!(format_context(&[]), "");
}
