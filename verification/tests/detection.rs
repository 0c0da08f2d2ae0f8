use rgbuilder::semantic_onnx_tokenizer::{choose_sentencepiece_path, sentencepiece_file_names};
use rgbuilder::semantic_onnx_tokenizer::{hash_token, hash_tokenize, OnnxTokenizer};
use rgbuilder::error::Error;
use rgbuilder::graph_builder::ConfigUsageKind;
use rgbuilder::usage_detector::{ConfigConfidence, ConfigUsageDetector};

#[test]
fn test_rust_config_detection() {
    let source = br#"
        fn main() {
            let host = env::var("DB_HOST").unwrap();
            let pool_size = config.get("database.pool_size").unwrap();
        }
        "#;

    let usages = ConfigUsageDetector::detect("rust", source, "main.rs");
    assert!(usages
        .iter()
        .any(|u| u.key == "DB_HOST" && u.usage_type == ConfigUsageKind::EnvVar));
    assert!(usages.iter().any(|u| u.key == "database.pool_size"));
}

#[test]
fn test_python_config_detection() {
    let source = br#"
import os
host = os.environ['DB_HOST']
port = os.getenv('DB_PORT')
"#;

    let usages = ConfigUsageDetector::detect("python", source, "app.py");
    assert!(usages.iter().any(|u| u.key == "DB_HOST"));
    assert!(usages.iter().any(|u| u.key == "DB_PORT"));
}

#[test]
fn test_javascript_env_detection() {
    let source = br#"
const host = process.env.DB_HOST;
const port = process.env['DB_PORT'];
"#;

    let usages = ConfigUsageDetector::detect("javascript", source, "app.js");
    assert!(usages.iter().any(|u| u.key == "DB_HOST"));
    assert!(usages.iter().any(|u| u.key == "DB_PORT"));
}

#[test]
fn detection_reports_lines_kinds_and_order() {
    let source = b"x = env::var(\"A\");\r\ny = cfg.get(\"b.c\"); z = env::var_os(\"D\");\n";
    let usages = ConfigUsageDetector::detect("rust", source, "src/x.rs");
    let got: Vec<(String, usize, ConfigUsageKind, ConfigConfidence)> = usages
        .iter()
        .map(|u| (u.key.clone(), u.line, u.usage_type, u.confidence))
        .collect();
    assert_eq!(
        got,
        vec![
            ("A".to_string(), 1, ConfigUsageKind::EnvVar, ConfigConfidence::Extracted),
            ("D".to_string(), 2, ConfigUsageKind::EnvVar, ConfigConfidence::Extracted),
            ("b.c".to_string(), 2, ConfigUsageKind::ConfigKey, ConfigConfidence::Inferred),
        ]
    );
    assert!(usages.iter().all(|u| u.file == "src/x.rs"));
}

#[test]
fn detection_go_and_unknown_language() {
    let source = b"v := os.Getenv(\"PORT\")";
    let usages = ConfigUsageDetector::detect("go", source, "main.go");
    assert_eq!(usages.len(), 1);
    assert_eq!(usages[0].key, "PORT");
    assert_eq!(usages[0].line, 1);
    assert!(ConfigUsageDetector::detect("cobol", source, "x").is_empty());
    let ts = ConfigUsageDetector::detect("typescript", b"process.env.API_KEY", "a.ts");
    assert_eq!(ts.len(), 1);
}

#[test]
fn hash_tokenize_never_empty() {
    let (ids, mask) = hash_tokenize("", 16, 1000);
    assert_eq!(ids.len(), 1);
    assert_eq!(mask.len(), ids.len());
}

#[test]
fn hash_tokenize_splits_words_and_caps_length() {
    let (ids, mask) = hash_tokenize("foo, bar_baz!! qux", 2, 1000);
    assert_eq!(ids.len(), 2);
    assert_eq!(mask, vec![1, 1]);
    assert_eq!(ids[0], (hash_token("foo") % 1000) as i64);
    assert_eq!(ids[1], (hash_token("bar_baz") % 1000) as i64);
    let (ids, _) = hash_tokenize("!!", 4, 7);
    assert_eq!(ids, vec![0]);
}

#[test]
fn hash_tokenize_without_vocabulary_when_nothing_is_hashed() {
    assert_eq!(hash_tokenize("?! --", 4, 0), (vec![0], vec![1]));
    assert_eq!(hash_tokenize("some words here", 0, 0), (vec![0], vec![1]));
}

#[test]
fn hash_token_is_fnv1a() {
    assert_eq!(hash_token(""), 0xcbf29ce484222325);
    assert_eq!(hash_token("a"), 0xaf63dc4c8601ec8c);
}

#[test]
fn encode_dispatches_on_tokenizer_kind() {
    let hash = OnnxTokenizer::Hash { max_seq_len: 8, vocab_size: 50 };
    let (ids, mask) = hash.encode("alpha beta").unwrap();
    assert_eq!(ids.len(), 2);
    assert_eq!(mask.len(), 2);
    let sp = OnnxTokenizer::SentencePiece {
        path: "m.model".to_string(),
        max_seq_len: 8,
        bos_id: 0,
        eos_id: 2,
        pad_id: 1,
    };
    match sp.encode("x") {
        Err(Error::ConfigError(msg)) => assert!(msg.contains("SentencePiece")),
        other => panic!("unexpected {other:?}"),
    }
}

#[test]
fn sentencepiece_path_prefers_explicit_then_first_present() {
    assert_eq!(
        choose_sentencepiece_path("m/model.onnx", Some(("tok.model", true)), None).unwrap(),
        "tok.model"
    );
    assert_eq!(
        choose_sentencepiece_path("m/model.onnx", Some(("tok.model", false)), None),
        Err(Error::ConfigError("tokenizer not found: tok.model".to_string()))
    );
    let names = sentencepiece_file_names();
    assert_eq!(names, vec!["sentencepiece.bpe.model", "tokenizer.model", "spiece.model"]);
    let cands = vec![
        ("m/sentencepiece.bpe.model".to_string(), false),
        ("m/tokenizer.model".to_string(), true),
        ("m/spiece.model".to_string(), true),
    ];
    assert_eq!(
        choose_sentencepiece_path("m/model.onnx", None, Some(&cands)).unwrap(),
        "m/tokenizer.model"
    );
    let none: Vec<(String, bool)> = cands.iter().map(|(p, _)| (p.clone(), false)).collect();
    assert_eq!(
        choose_sentencepiece_path("m/model.onnx", None, Some(&none)),
        Err(Error::ConfigError(
            "no SentencePiece tokenizer beside m/model.onnx; pass --tokenizer PATH".to_string()
        ))
    );
    assert_eq!(
        choose_sentencepiece_path("model.onnx", None, None),
        Err(Error::ConfigError("model path has no parent directory".to_string()))
    );
}

#[test]
fn detection_shape_holds_on_a_mixed_source() {
    let source = b"const a = process.env.API_KEY;\nconst b = process.env['DB_URL'];\nlet c = config.get(\"x.y\");\n";
    assert!(ConfigUsageDetector::detect("cobol", source, "f.js").is_empty());
    let ts = ConfigUsageDetector::detect("typescript", source, "f.js");
    let js = ConfigUsageDetector::detect("javascript", source, "f.js");
    assert_eq!(ts, js);
    assert_eq!(ts.len(), 2);
    let rust = ConfigUsageDetector::detect("rust", source, "lib.rs");
    assert_eq!(rust.len(), 1);
    for u in ts.iter().chain(rust.iter()) {
        assert!(u.file == "f.js" || u.file == "lib.rs");
        assert!(1 <= u.line && u.line <= 3);
        assert_eq!(u.confidence == ConfigConfidence::Inferred, u.usage_type == ConfigUsageKind::ConfigKey);
    }
    assert_eq!(rust[0].line, 3);
    assert_eq!(rust[0].confidence, ConfigConfidence::Inferred);
}
