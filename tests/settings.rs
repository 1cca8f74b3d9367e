use tag_validator::config::{numeric_setting, parse_u16, text_setting};
use tag_validator::error::AppError;
use tag_validator::service::{negative_tags, positive_tags};
use tag_validator::{Config, EmbeddingError, GenerateTagsResponse, LlmError};

#[test]
fn defaults_when_nothing_is_set() {
    let c = Config::from_values(None, None, None, None, None, None, None, None, None);
    assert_eq!(c.server_addr, "0.0.0.0:3333");
    assert_eq!(c.qdrant_url, "http://localhost:6334");
    assert_eq!(c.collection_name, "image-tags");
    assert_eq!(c.ollama_host, "http://localhost");
    assert_eq!(c.llm_model, "llama3:8b");
    assert_eq!(c.embedding_model, "nomic-embed-text");
    assert_eq!(c.ollama_port, 11434);
    assert_eq!(c.vector_size, 768);
    assert_eq!(c.embedding_concurrency, 1);
}

#[test]
fn given_values_win() {
    let s = |v: &str| Some(v.to_string());
    let c = Config::from_values(
        s("127.0.0.1:8080"),
        s("http://qdrant:6334"),
        s("tags"),
        s("http://ollama"),
        s("mistral"),
        s("mxbai"),
        s("11435"),
        s("1024"),
        s("4"),
    );
    assert_eq!(c.server_addr, "127.0.0.1:8080");
    assert_eq!(c.qdrant_url, "http://qdrant:6334");
    assert_eq!(c.collection_name, "tags");
    assert_eq!(c.ollama_host, "http://ollama");
    assert_eq!(c.llm_model, "mistral");
    assert_eq!(c.embedding_model, "mxbai");
    assert_eq!(c.ollama_port, 11435);
    assert_eq!(c.vector_size, 1024);
    assert_eq!(c.embedding_concurrency, 4);
}

#[test]
fn unreadable_numbers_take_defaults() {
    let s = |v: &str| Some(v.to_string());
    let c = Config::from_values(None, None, None, None, None, None, s("port"), s("70000"), s("-1"));
    assert_eq!(c.ollama_port, 11434);
    assert_eq!(c.vector_size, 768);
    assert_eq!(c.embedding_concurrency, 1);
}

#[test]
fn u16_parsing_matches_std() {
    for text in ["0", "65535", "65536", "+7", "+", "", "12a", " 1", "007", "-0", "99999999999"] {
        assert_eq!(parse_u16(text), text.parse::<u16>().ok(), "{}", text);
    }
    assert_eq!(numeric_setting(Some("42".to_string()), 5), 42);
    assert_eq!(numeric_setting(Some("x".to_string()), 5), 5);
    assert_eq!(numeric_setting(None, 5), 5);
    assert_eq!(text_setting(None, "d"), "d");
    assert_eq!(text_setting(Some("v".to_string()), "d"), "v");
}

#[test]
fn stock_lists_only_when_asked() {
    let tags = vec!["1girl".to_string()];
    let r = GenerateTagsResponse::new(tags.clone(), Some(true), Some(false));
    assert_eq!(r.tags, tags);
    assert_eq!(r.positive, Some(positive_tags()));
    assert!(r.negative.is_none());
    let r = GenerateTagsResponse::new(vec![], None, Some(true));
    assert!(r.positive.is_none());
    assert_eq!(r.negative.unwrap(), negative_tags());
    assert_eq!(positive_tags()[0], "masterpiece");
    assert_eq!(negative_tags().len(), 6);
}

#[test]
fn client_messages_hide_backend_details() {
    let e: AppError = LlmError::Generation("secret".to_string()).into();
    assert_eq!(e.public_message(), "LLM operation failed");
    let e: AppError = EmbeddingError::VectorDatabase("secret".to_string()).into();
    assert_eq!(e.public_message(), "Database or embedding operation failed");
    assert_eq!(AppError::ServerBind("x".to_string()).public_message(), "Server failed to start");
}
