use serde_json::Value;
use tokenmill::arrow_table::Batch;
use tokenmill::convert::{batches_fit, convert_line, route, try_convert, Route};
use tokenmill::dedup::{comparison_text, MeaningWindow, MinHasher, SeenTexts};
use tokenmill::filter::{
    filter_with, is_refusal, screen, settle, try_filter, Outcome, Screening,
};
use tokenmill::parquet::line_value;
use tokenmill::stats::{percentiles, try_stats, Tally};
use tokenmill::tokenizer::{can_tokenize, Tokenizer, MAX_BLANK_RUN, MAX_RUN};
use tokenmill::validate::validate_reporting;
use tokenmill::{
    convert, detect, exact_dedup, filter, line_bytes, minhash_dedup, sample, semantic_dedup, stats,
    validate, Alpaca, ChatML, ChatMLMessage, Error, FilterOptions, Format, Line,
    MinHashDedupOptions, Reading, ShareGPT, ShareGPTConversation, ValidationSummary,
};

fn text_field(value: &Value, key: &str) -> Result<String, String> {
    match value.get(key) {
        Some(Value::String(s)) => Ok(s.clone()),
        Some(_) => Err(format!("invalid type for `{}`", key)),
        None => Err(format!("missing field `{}`", key)),
    }
}

fn list_field(value: &Value, key: &str) -> Result<Vec<Value>, String> {
    match value.get(key) {
        Some(Value::Array(items)) => Ok(items.clone()),
        Some(_) => Err(format!("invalid type for `{}`", key)),
        None => Err(format!("missing field `{}`", key)),
    }
}

fn read_alpaca(value: &Value) -> Result<Alpaca, String> {
    Ok(Alpaca {
        instruction: text_field(value, "instruction")?,
        input: if value.get("input").is_some() {
            text_field(value, "input")?
        } else {
            String::new()
        },
        output: text_field(value, "output")?,
    })
}

fn read_sharegpt(value: &Value) -> Result<ShareGPT, String> {
    let mut conversations = Vec::new();
    for item in list_field(value, "conversations")? {
        conversations.push(ShareGPTConversation {
            from: text_field(&item, "from")?,
            value: text_field(&item, "value")?,
        });
    }
    Ok(ShareGPT { conversations })
}

fn read_chatml(value: &Value) -> Result<ChatML, String> {
    let mut messages = Vec::new();
    for item in list_field(value, "messages")? {
        messages.push(ChatMLMessage {
            role: text_field(&item, "role")?,
            content: text_field(&item, "content")?,
        });
    }
    Ok(ChatML { messages })
}

fn read_line(text: &str) -> Line {
    let parsed: Result<Value, String> = serde_json::from_str(text).map_err(|e| e.to_string());
    let reading = match parsed {
        Ok(value) => Reading {
            alpaca: read_alpaca(&value),
            sharegpt: read_sharegpt(&value),
            chatml: read_chatml(&value),
        },
        Err(words) => Reading {
            alpaca: Err(words.clone()),
            sharegpt: Err(words.clone()),
            chatml: Err(words),
        },
    };
    Line { text: text.to_string(), reading }
}

fn read_lines(input: &str) -> Vec<Line> {
    input.lines().map(read_line).collect()
}

fn alpaca_text(instruction: &str, output: &str) -> String {
    format!(r#"{{"instruction":"{}","output":"{}"}}"#, instruction, output)
}

#[test]
fn test_validate_alpaca() {
    let input = r#"{"instruction": "i1", "output": "o1"}
{"instruction": "i2"}
{"instruction": "i3", "output": "o3"}"#;
    let mut output = Vec::new();
    let summary = validate(&read_lines(input), &mut output, Format::Alpaca, false).unwrap();
    assert_eq!(summary.valid_lines, 2);
    assert_eq!(summary.invalid_lines, 1);
}

#[test]
fn test_alpaca_to_sharegpt() {
    let input = r#"{"instruction": "i", "output": "o"}"#;
    let mut output = Vec::new();
    let mut batches: Vec<Batch> = Vec::new();
    convert(&read_lines(input), &mut output, &mut batches, Format::Alpaca, Format::ShareGPT, false)
        .unwrap();
    let expected =
        r#"{"conversations":[{"from":"human","value":"i"},{"from":"gpt","value":"o"}]}"#;
    assert_eq!(output.join("\n").trim(), expected);
    assert!(batches.is_empty());
}

#[test]
fn test_filter_chars() {
    let input = r#"{"instruction": "short", "output": "short"}"#;
    let mut output = Vec::new();
    let options = FilterOptions { min_chars: Some(100), ..FilterOptions::default() };
    let summary = filter(&read_lines(input), &Vec::new(), &mut output, &options).unwrap();
    assert_eq!(summary.kept, 0);
    assert_eq!(summary.removed, 1);
}

#[test]
fn test_filter_refusals() {
    let input = r#"{"instruction": "i", "output": "as an ai language model"}"#;
    let mut output = Vec::new();
    let options = FilterOptions { remove_refusals: true, ..FilterOptions::default() };
    let summary = filter(&read_lines(input), &Vec::new(), &mut output, &options).unwrap();
    assert_eq!(summary.kept, 0);
    assert_eq!(summary.removed, 1);
}

#[test]
fn validation_writes_the_valid_lines_in_order() {
    let input = r#"{"instruction": "i1", "output": "o1"}
{"instruction": "i2"}
{"instruction": "i3", "output": "o3"}"#;
    let mut output = vec!["before".to_string()];
    validate(&read_lines(input), &mut output, Format::Alpaca, false).unwrap();
    assert_eq!(
        output,
        vec![
            "before".to_string(),
            r#"{"instruction": "i1", "output": "o1"}"#.to_string(),
            r#"{"instruction": "i3", "output": "o3"}"#.to_string(),
        ]
    );
    let again = read_lines(&output[1..].join("\n"));
    let mut second = Vec::new();
    let summary = validate(&again, &mut second, Format::Alpaca, true).unwrap();
    assert_eq!(summary.valid_lines, 2);
    assert_eq!(second, output[1..].to_vec());
}

#[test]
fn strict_validation_ends_at_the_first_invalid_line() {
    let input = "{\"instruction\": \"i1\", \"output\": \"o1\"}\n{\"instruction\": 1}\nnonsense";
    let mut output = Vec::new();
    let error = validate(&read_lines(input), &mut output, Format::Alpaca, true).unwrap_err();
    assert_eq!(
        error,
        Error::InvalidLine { line: 2, content: "{\"instruction\": 1}".to_string() }
    );
    assert_eq!(error.message(), "Invalid line at 2: {\"instruction\": 1}");
    assert_eq!(output.len(), 1);
}

#[test]
fn validation_checks_speakers_and_roles() {
    let input = r#"{"conversations":[{"from":"human","value":"a"},{"from":"system","value":"b"}]}
{"conversations":[{"from":"user","value":"a"}]}
{"conversations":[]}"#;
    let mut output = Vec::new();
    let summary = validate(&read_lines(input), &mut output, Format::ShareGPT, false).unwrap();
    assert_eq!((summary.valid_lines, summary.invalid_lines), (2, 1));
    let input = r#"{"messages":[{"role":"user","content":"a"}]}
{"messages":[{"role":"gpt","content":"a"}]}"#;
    let summary = validate(&read_lines(input), &mut output, Format::ChatML, false).unwrap();
    assert_eq!((summary.valid_lines, summary.invalid_lines), (1, 1));
    let summary = validate(&read_lines(input), &mut output, Format::Parquet, false).unwrap();
    assert_eq!((summary.valid_lines, summary.invalid_lines), (0, 2));
}

#[test]
fn filter_counts_what_it_does_not_understand() {
    let input = format!("nonsense\n[1]\n{{\"a\":1}}\n{}", alpaca_text("i", "o"));
    let mut output = Vec::new();
    let summary =
        filter(&read_lines(&input), &Vec::new(), &mut output, &FilterOptions::default()).unwrap();
    assert_eq!((summary.kept, summary.removed, summary.error), (1, 0, 3));
    assert_eq!(output, vec![alpaca_text("i", "o")]);
}

#[test]
fn filter_ends_at_a_line_that_is_no_record_of_its_format() {
    let input = format!("{}\n{{\"instruction\":\"i\"}}\n{}", alpaca_text("a", "b"), alpaca_text("c", "d"));
    let mut output = Vec::new();
    let error = filter(&read_lines(&input), &Vec::new(), &mut output, &FilterOptions::default())
        .unwrap_err();
    assert_eq!(error, Error::Json("missing field `output`".to_string()));
    assert_eq!(output, vec![alpaca_text("a", "b")]);
}

#[test]
fn filter_bounds_include_their_ends() {
    // "ab\n\ncd" has six characters.
    let lines = read_lines(&alpaca_text("ab", "cd"));
    for (min, max, kept) in
        [(Some(6), None, 1), (Some(7), None, 0), (None, Some(6), 1), (None, Some(5), 0)]
    {
        let options =
            FilterOptions { min_chars: min, max_chars: max, ..FilterOptions::default() };
        let mut output = Vec::new();
        let summary = filter(&lines, &Vec::new(), &mut output, &options).unwrap();
        assert_eq!(summary.kept, kept);
        assert_eq!(summary.removed, 1 - kept);
    }
}

#[test]
fn characters_are_counted_not_bytes() {
    let lines = read_lines(&alpaca_text("äöü", "日本"));
    let options = FilterOptions {
        min_chars: Some(7),
        max_chars: Some(7),
        ..FilterOptions::default()
    };
    let mut output = Vec::new();
    assert_eq!(filter(&lines, &Vec::new(), &mut output, &options).unwrap().kept, 1);
}

#[test]
fn filter_counts_tokens() {
    // "hello world" is two tokens, and the two line feeds and a letter are two more.
    let lines = read_lines(&alpaca_text("hello world", "x"));
    let tokenizer = Tokenizer::load("cl100k_base").unwrap();
    let count = tokenizer.count("hello world\n\nx") as u32;
    assert_eq!(tokenizer.count("hello world"), 2);
    for (min, max, kept) in [
        (Some(count), Some(count), 1),
        (Some(count + 1), None, 0),
        (None, Some(count - 1), 0),
    ] {
        let options =
            FilterOptions { min_tokens: min, max_tokens: max, ..FilterOptions::default() };
        let mut output = Vec::new();
        assert_eq!(filter(&lines, &Vec::new(), &mut output, &options).unwrap().kept, kept);
        let loaded = options.load_tokenizer().unwrap();
        let mut again = Vec::new();
        let summary =
            filter_with(&lines, &Vec::new(), &loaded, &mut again, &options).unwrap();
        assert_eq!(summary.kept, kept);
        assert_eq!(again, output);
    }
}

#[test]
fn filter_refuses_an_unknown_tokenizer() {
    let options = FilterOptions {
        min_tokens: Some(1),
        tokenizer_name: Some("gpt2".to_string()),
        ..FilterOptions::default()
    };
    let mut output = Vec::new();
    let error =
        filter(&read_lines(&alpaca_text("a", "b")), &Vec::new(), &mut output, &options).unwrap_err();
    assert_eq!(error, Error::UnsupportedTokenizer("gpt2".to_string()));
    assert_eq!(error.message(), "Unsupported tokenizer: gpt2");
    assert!(output.is_empty());
    // Without bounds on tokens the name does not matter.
    let options =
        FilterOptions { tokenizer_name: Some("gpt2".to_string()), ..FilterOptions::default() };
    let summary =
        filter(&read_lines(&alpaca_text("a", "b")), &Vec::new(), &mut output, &options).unwrap();
    assert_eq!(summary.kept, 1);
}

#[test]
fn filter_removes_what_the_scorer_finds_perplexing() {
    let input = format!("{}\n{}", alpaca_text("a", "b"), alpaca_text("c", "d"));
    let lines = read_lines(&input);
    let options = FilterOptions {
        perplexity_threshold: true,
        model_path: Some("model".to_string()),
        ..FilterOptions::default()
    };
    let mut output = Vec::new();
    let summary = filter(&lines, &vec![true, false], &mut output, &options).unwrap();
    assert_eq!((summary.kept, summary.removed), (1, 1));
    assert_eq!(output, vec![alpaca_text("c", "d")]);
    // Without a model nothing is scored.
    let options = FilterOptions { model_path: None, ..options };
    let mut output = Vec::new();
    assert_eq!(filter(&lines, &vec![true, true], &mut output, &options).unwrap().kept, 2);
}

#[test]
fn refusals_are_told_by_what_the_model_says() {
    let refusing = FilterOptions { remove_refusals: true, ..FilterOptions::default() };
    let kept = |text: &str| {
        let mut output = Vec::new();
        filter(&read_lines(text), &Vec::new(), &mut output, &refusing).unwrap().kept
    };
    assert_eq!(kept(&alpaca_text("i", "As An AI Language Model, no")), 0);
    assert_eq!(kept(&alpaca_text("as an ai language model", "fine")), 1);
    assert_eq!(
        kept(r#"{"conversations":[{"from":"human","value":"I must inform you that"},{"from":"gpt","value":"ok"}]}"#),
        1
    );
    assert_eq!(
        kept(r#"{"conversations":[{"from":"assistant","value":"I CANNOT and will not"}]}"#),
        0
    );
    assert_eq!(
        kept(r#"{"messages":[{"role":"gpt","content":"it is not appropriate for me"}]}"#),
        0
    );
    assert_eq!(
        kept(r#"{"messages":[{"role":"user","content":"it is not appropriate for me"}]}"#),
        1
    );
}

#[test]
fn every_refusal_phrase_is_known() {
    for phrase in [
        "as an ai language model",
        "as a large language model",
        "as an ai assistant",
        "i cannot and will not",
        "i'm not able to provide",
        "i am not able to provide",
        "it is not appropriate for me",
        "i must inform you that",
    ] {
        assert!(is_refusal(&format!("well, {} do this", phrase)));
    }
    assert!(!is_refusal("i cannot"));
    assert!(!is_refusal("As an AI language model"));
}

#[test]
fn filter_is_idempotent() {
    let input = format!(
        "{}\n{}\n{}",
        alpaca_text("long enough", "yes"),
        alpaca_text("a", "b"),
        alpaca_text("long enough too", "as an ai assistant")
    );
    let options = FilterOptions {
        min_chars: Some(10),
        remove_refusals: true,
        ..FilterOptions::default()
    };
    let mut once = Vec::new();
    filter(&read_lines(&input), &Vec::new(), &mut once, &options).unwrap();
    assert_eq!(once, vec![alpaca_text("long enough", "yes")]);
    let mut twice = Vec::new();
    let summary = filter(&read_lines(&once.join("\n")), &Vec::new(), &mut twice, &options).unwrap();
    assert_eq!(twice, once);
    assert_eq!((summary.kept, summary.removed, summary.error), (1, 0, 0));
}

#[test]
fn screening_gives_the_canonical_text() {
    let line = read_line(&alpaca_text("a", "b"));
    match screen(&line, &FilterOptions::default()).unwrap() {
        Screening::Passed(text) => assert_eq!(text, "a\n\nb"),
        other => panic!("unexpected: {:?}", other),
    }
    assert!(matches!(
        screen(&read_line("nonsense"), &FilterOptions::default()),
        Ok(Screening::Malformed)
    ));
}

#[test]
fn long_white_space_cannot_be_counted() {
    let longer = " ".repeat(MAX_BLANK_RUN + 1);
    assert!(!can_tokenize(&longer));
    assert!(!can_tokenize(&"a".repeat(MAX_RUN + 1)));
    assert!(!can_tokenize(&"é".repeat(MAX_RUN + 1)));
    assert!(!can_tokenize(&"!".repeat(MAX_RUN + 1)));
    assert!(can_tokenize(&"a1".repeat(MAX_RUN + 1)));
    let lines = vec![Line {
        text: r#"{"instruction":"","output":""}"#.to_string(),
        reading: Reading {
            alpaca: Ok(Alpaca {
                instruction: String::new(),
                input: String::new(),
                output: longer,
            }),
            sharegpt: Err(String::new()),
            chatml: Err(String::new()),
        },
    }];
    let counting = FilterOptions { min_tokens: Some(1), ..FilterOptions::default() };
    let mut output = Vec::new();
    assert!(try_filter(&lines, &Vec::new(), &mut output, &counting).is_none());
    assert!(try_filter(&lines, &Vec::new(), &mut output, &FilterOptions::default()).is_some());
    assert!(try_stats(&lines, None, "cl100k_base", false).is_none());
}

#[test]
fn stats_of_a_dataset() {
    let input = format!(
        "{}\nnonsense\n{}\n{{\"instruction\":1,\"output\":\"o\"}}",
        alpaca_text("hello world", "hello"),
        alpaca_text("hello", "hello")
    );
    let lines = read_lines(&input);
    let tokenizer = Tokenizer::load("cl100k_base").unwrap();
    let long = tokenizer.count("hello world\n\nhello") as u64;
    let short = tokenizer.count("hello\n\nhello") as u64;
    assert_eq!((long, short), (4, 3));
    let summary = stats(&lines, None, "cl100k_base", true).unwrap();
    assert_eq!(summary.total_lines, 4);
    assert_eq!(summary.valid_lines, 2);
    assert_eq!(summary.invalid_lines, 2);
    assert_eq!(summary.total_tokens, long + short);
    assert_eq!(summary.min_tokens, short);
    assert_eq!(summary.max_tokens, long);
    let p = summary.percentiles.unwrap();
    // Of two numbers a half is rounded up to the second.
    assert_eq!((p.p25, p.p50, p.p75, p.p90, p.p99), (short, long, long, long, long));
    assert!(stats(&lines, None, "cl100k_base", false).unwrap().percentiles.is_none());
    assert_eq!(try_stats(&lines, None, "cl100k_base", true), Some(Ok(summary)));
}

#[test]
fn stats_of_nothing() {
    let summary = stats(&read_lines("nonsense"), None, "cl100k_base", true).unwrap();
    assert_eq!((summary.total_lines, summary.valid_lines, summary.invalid_lines), (1, 0, 1));
    assert_eq!((summary.min_tokens, summary.max_tokens, summary.total_tokens), (0, 0, 0));
    assert!(summary.percentiles.is_none());
}

#[test]
fn stats_refuse_an_unknown_tokenizer() {
    let error = stats(&Vec::new(), None, "p50k_base", false).unwrap_err();
    assert_eq!(error, Error::UnsupportedTokenizer("p50k_base".to_string()));
}

#[test]
fn the_first_valid_line_tells_the_format() {
    let chat = r#"{"messages":[{"role":"user","content":"hello"}]}"#;
    let input = format!("nonsense\n{}\n{}\n{}", chat, alpaca_text("a", "b"), chat);
    let lines = read_lines(&input);
    let summary = stats(&lines, None, "cl100k_base", false).unwrap();
    assert_eq!((summary.total_lines, summary.valid_lines, summary.invalid_lines), (4, 2, 2));
    let summary = stats(&lines, Some(Format::Alpaca), "cl100k_base", false).unwrap();
    assert_eq!((summary.total_lines, summary.valid_lines, summary.invalid_lines), (4, 1, 3));
    let summary = stats(&lines, Some(Format::Parquet), "cl100k_base", false).unwrap();
    assert_eq!(summary.valid_lines, 0);
    let mut tally = Tally::new(None, false);
    assert!(tally.take_line(&lines[0]).is_none());
    assert_eq!(tally.format, None);
    assert_eq!(tally.take_line(&lines[1]), Some("hello".to_string()));
    assert_eq!(tally.format, Some(Format::ChatML));
    tally.count(1);
    assert_eq!(tally.finish().total_tokens, 1);
}

#[test]
fn percentiles_are_rounded_to_the_nearest_place() {
    for n in 1..=230u64 {
        let counts: Vec<u64> = (0..n).rev().map(|k| k * 3).collect();
        let p = percentiles(counts);
        let place = |pct: f64| ((pct * (n as f64 - 1.0)) / 100.0).round() as u64 * 3;
        assert_eq!(
            (p.p25, p.p50, p.p75, p.p90, p.p99),
            (place(25.0), place(50.0), place(75.0), place(90.0), place(99.0))
        );
        assert!(p.p25 <= p.p50 && p.p50 <= p.p75 && p.p75 <= p.p90 && p.p90 <= p.p99);
    }
}

#[test]
fn conversion_refuses_equal_formats() {
    let mut output = Vec::new();
    let mut batches: Vec<Batch> = Vec::new();
    let error =
        convert(&Vec::new(), &mut output, &mut batches, Format::ChatML, Format::ChatML, false)
            .unwrap_err();
    assert_eq!(error, Error::SameFormat(Format::ChatML));
    assert_eq!(error.message(), "Source and target formats are the same: ChatML");
}

#[test]
fn conversion_skips_malformed_lines_only_where_told() {
    let input = format!("{}\nnonsense\n{}", alpaca_text("a", "b"), alpaca_text("c", "d"));
    let lines = read_lines(&input);
    let mut output = Vec::new();
    let mut batches: Vec<Batch> = Vec::new();
    let result =
        convert(&lines, &mut output, &mut batches, Format::Alpaca, Format::ChatML, false);
    assert!(matches!(result, Err(Error::Json(_))));
    assert_eq!(output.len(), 1);
    let mut output = Vec::new();
    convert(&lines, &mut output, &mut batches, Format::Alpaca, Format::ChatML, true).unwrap();
    assert_eq!(
        output,
        vec![
            r#"{"messages":[{"role":"user","content":"a"},{"role":"assistant","content":"b"}]}"#,
            r#"{"messages":[{"role":"user","content":"c"},{"role":"assistant","content":"d"}]}"#,
        ]
    );
}

fn converted(text: &str, from: Format, to: Format) -> Vec<String> {
    let mut output = Vec::new();
    let mut batches: Vec<Batch> = Vec::new();
    convert(&read_lines(text), &mut output, &mut batches, from, to, false).unwrap();
    output
}

#[test]
fn every_pair_of_line_formats_is_converted() {
    let alpaca = r#"{"instruction":"i","input":"n","output":"o"}"#;
    let sharegpt = r#"{"conversations":[{"from":"system","value":"s"},{"from":"human","value":"h"},{"from":"gpt","value":"g"},{"from":"tool","value":"t"}]}"#;
    let chatml = r#"{"messages":[{"role":"system","content":"s"},{"role":"user","content":"h"},{"role":"assistant","content":"g"},{"role":"tool","content":"t"}]}"#;
    assert_eq!(
        converted(alpaca, Format::Alpaca, Format::ShareGPT),
        vec![r#"{"conversations":[{"from":"human","value":"i\nn"},{"from":"gpt","value":"o"}]}"#]
    );
    assert_eq!(
        converted(alpaca, Format::Alpaca, Format::ChatML),
        vec![r#"{"messages":[{"role":"user","content":"i\nn"},{"role":"assistant","content":"o"}]}"#]
    );
    assert_eq!(converted(sharegpt, Format::ShareGPT, Format::ChatML), vec![chatml]);
    assert_eq!(converted(chatml, Format::ChatML, Format::ShareGPT), vec![sharegpt]);
    let condensed = r#"{"instruction":"h","input":"","output":"g"}"#;
    assert_eq!(converted(sharegpt, Format::ShareGPT, Format::Alpaca), vec![condensed]);
    assert_eq!(converted(chatml, Format::ChatML, Format::Alpaca), vec![condensed]);
    assert_eq!(
        converted(r#"{"conversations":[]}"#, Format::ShareGPT, Format::Alpaca),
        vec![r#"{"instruction":"","input":"","output":""}"#]
    );
}

#[test]
fn other_pairs_write_nothing() {
    assert!(converted(&alpaca_text("a", "b"), Format::Alpaca, Format::Arrow).is_empty());
    assert!(converted("nonsense", Format::Parquet, Format::Alpaca).is_empty());
}

#[test]
fn converted_lines_are_told_as_their_format() {
    let strange = r#"{"instruction":"a \"quoted\" \\ \u0001\b\f\n\r\t \u001f é 😀","output":""}"#;
    for to in [Format::ShareGPT, Format::ChatML] {
        let line = converted(strange, Format::Alpaca, to).remove(0);
        assert_eq!(detect(&line).unwrap(), to);
        let value: Value = serde_json::from_str(&line).unwrap();
        assert_eq!(serde_json::to_string(&value).unwrap().len(), line.len());
        let back = converted(&line, to, Format::Alpaca).remove(0);
        assert_eq!(detect(&back).unwrap(), Format::Alpaca);
        let read = read_line(&back).reading.alpaca.unwrap();
        assert_eq!(read, Alpaca { input: String::new(), ..read_line(strange).reading.alpaca.unwrap() });
    }
}

#[test]
fn an_exchange_conforms_to_its_schema() {
    let line = converted(&alpaca_text("i", "o"), Format::Alpaca, Format::ChatML).remove(0);
    assert!(read_line(&line).reading.conforms(Format::ChatML));
    let line = converted(&alpaca_text("i", "o"), Format::Alpaca, Format::ShareGPT).remove(0);
    assert!(read_line(&line).reading.conforms(Format::ShareGPT));
}

#[test]
fn renaming_speakers_keeps_the_text() {
    let line = read_line(r#"{"conversations":[{"from":"human","value":"h"},{"from":"gpt","value":"g"}]}"#);
    let record = line.reading.sharegpt.unwrap();
    assert_eq!(record.to_chatml().canonical_text(), record.canonical_text());
    assert_eq!(record.to_chatml().to_sharegpt(), record);
}

#[test]
fn tables_that_fit_are_converted() {
    let lines = read_lines(&alpaca_text("a", "b"));
    assert!(batches_fit(&lines, Format::Alpaca, false));
    let mut output = Vec::new();
    let mut batches: Vec<Batch> = Vec::new();
    let done =
        try_convert(&lines, &mut output, &mut batches, Format::Alpaca, Format::Parquet, false);
    assert_eq!(done, Some(Ok(())));
    assert_eq!(batches.len(), 1);
    let refused =
        try_convert(&lines, &mut output, &mut batches, Format::Arrow, Format::Parquet, false);
    assert_eq!(refused, Some(Err(Error::NoSchema(Format::Arrow))));
    assert_eq!(
        Error::NoSchema(Format::Arrow).message(),
        "Unsupported Parquet schema for format: Arrow"
    );
}

#[test]
fn exact_deduplication_keeps_the_first_of_each_text() {
    let a = alpaca_text("a", "b");
    let same = r#"{"output": "b", "instruction": "a", "more": 1}"#;
    let c = alpaca_text("c", "d");
    let chat = r#"{"messages":[{"role":"user","content":"a"},{"role":"user","content":""},{"role":"user","content":"b"}]}"#;
    let input = format!("{}\nnonsense\n{}\n{}\n{}\n{}", a, same, c, chat, c);
    let mut output = Vec::new();
    let kept = exact_dedup(&read_lines(&input), &mut output, false).unwrap();
    assert_eq!(kept, 2);
    assert_eq!(output, vec![a.clone(), c.clone()]);
    let mut again = Vec::new();
    assert_eq!(exact_dedup(&read_lines(&output.join("\n")), &mut again, false).unwrap(), 2);
    assert_eq!(again, output);
    let mut seen = SeenTexts::new();
    assert!(seen.insert("a"));
    assert!(seen.insert("b"));
    assert!(!seen.insert("a"));
}

#[test]
fn deduplication_skips_malformed_lines_only_where_told() {
    let a = alpaca_text("a", "b");
    let input = format!("{}\n{{\"instruction\":1}}\n{}", a, alpaca_text("c", "d"));
    let lines = read_lines(&input);
    let mut output = Vec::new();
    assert!(matches!(exact_dedup(&lines, &mut output, false), Err(Error::Json(_))));
    assert_eq!(output, vec![a.clone()]);
    let mut output = Vec::new();
    assert_eq!(exact_dedup(&lines, &mut output, true).unwrap(), 2);
    let options = MinHashDedupOptions { threshold: 103, seed: 0 };
    let mut output = Vec::new();
    assert!(matches!(minhash_dedup(&lines, &mut output, &options, false), Err(Error::Json(_))));
    assert!(output.is_empty());
    assert_eq!(minhash_dedup(&lines, &mut output, &options, true).unwrap(), 2);
    let similar = vec![vec![], vec![false], vec![false, false]];
    let mut output = Vec::new();
    assert!(matches!(semantic_dedup(&lines, &similar, &mut output, false), Err(Error::Json(_))));
    assert_eq!(output, vec![a]);
    assert_eq!(semantic_dedup(&lines, &similar, &mut Vec::new(), true).unwrap(), 2);
}

#[test]
fn near_duplicates_are_dropped() {
    let base = "The quick brown fox jumps over the lazy dog and runs away from the angry farmer, \
                who shouts after it until the sun goes down behind the hills of the valley";
    let near = format!("{}!", base);
    let other = "A completely different text about the history of printing and of typefaces";
    let input = format!(
        "{}\n{}\n{}\n{}",
        alpaca_text(base, "x"),
        alpaca_text(&near, "x"),
        alpaca_text(other, "y"),
        alpaca_text(base, "x")
    );
    let lines = read_lines(&input);
    let options = MinHashDedupOptions { threshold: 77, seed: 42 };
    let mut output = Vec::new();
    assert_eq!(minhash_dedup(&lines, &mut output, &options, false).unwrap(), 2);
    assert_eq!(output, vec![alpaca_text(base, "x"), alpaca_text(other, "y")]);
    let mut again = Vec::new();
    minhash_dedup(&lines, &mut again, &options, false).unwrap();
    assert_eq!(again, output);
    // No two lines that are kept share a text, nor agree in as many rows.
    let options = MinHashDedupOptions { threshold: 103, seed: 42 };
    assert_eq!(minhash_dedup(&lines, &mut Vec::new(), &options, false).unwrap(), 2);
    // No two signatures agree in more rows than there are.
    let options = MinHashDedupOptions { threshold: 129, seed: 42 };
    assert_eq!(minhash_dedup(&lines, &mut Vec::new(), &options, false).unwrap(), 4);
    assert_eq!(minhash_dedup(&Vec::new(), &mut Vec::new(), &options, false).unwrap(), 0);
    let mut hasher = MinHasher::new(42);
    hasher.add_line(&lines[0], false).unwrap();
    hasher.add_line(&lines[3], false).unwrap();
    assert_eq!(hasher.finish(128), vec![alpaca_text(base, "x")]);
}

#[test]
fn meanings_are_compared_with_the_lines_kept_last() {
    let input = format!(
        "{}\n{}\n{}",
        alpaca_text("a", "a"),
        alpaca_text("b", "b"),
        alpaca_text("c", "c")
    );
    let lines = read_lines(&input);
    let similar = vec![vec![], vec![true], vec![false, true]];
    let mut output = Vec::new();
    // The second line is close to the first; the third is close to the second only, which is gone.
    assert_eq!(semantic_dedup(&lines, &similar, &mut output, false).unwrap(), 2);
    assert_eq!(output, vec![alpaca_text("a", "a"), alpaca_text("c", "c")]);
    let mut window = MeaningWindow::new();
    assert_eq!(window.start(), 0);
    assert!(window.decide(&vec![]));
    assert!(!window.decide(&vec![true]));
    assert!(window.decide(&vec![false]));
    assert_eq!(window.kept, 2);
    assert_eq!(MeaningWindow { kept: 5003 }.start(), 3);
}

#[test]
fn samples_have_the_size_asked_for() {
    let lines: Vec<String> = (0..50).map(|i| format!("line {}", i)).collect();
    let mut output = Vec::new();
    assert_eq!(sample(&lines, &mut output, 10, 42), 50);
    assert_eq!(output.len(), 10);
    let mut sorted = output.clone();
    sorted.sort();
    sorted.dedup();
    assert_eq!(sorted.len(), 10);
    assert!(output.iter().all(|line| lines.contains(line)));
    let mut again = Vec::new();
    sample(&lines, &mut again, 10, 42);
    assert_eq!(again, output);
    let mut other = Vec::new();
    sample(&lines, &mut other, 10, 43);
    assert_ne!(other, output);
}

#[test]
fn a_large_sample_takes_all_lines() {
    let lines: Vec<String> = (0..20).map(|i| format!("{:02}", i)).collect();
    let mut output = Vec::new();
    assert_eq!(sample(&lines, &mut output, 100, 7), 20);
    assert_ne!(output, lines);
    output.sort();
    assert_eq!(output, lines);
    let mut none = Vec::new();
    assert_eq!(sample(&lines, &mut none, 0, 7), 20);
    assert!(none.is_empty());
    assert_eq!(sample(&Vec::new(), &mut none, 3, 7), 0);
}

#[test]
fn a_line_takes_its_bytes_and_a_line_feed() {
    assert_eq!(line_bytes(""), 1);
    assert_eq!(line_bytes("héllo"), 7);
}

#[test]
fn steps_pass_over_bad_lines_when_asked() {
    let good = read_line(&alpaca_text("i", "o"));
    let bad = read_line(r#"{"instruction": 1, "output": "o"}"#);
    assert_eq!(comparison_text(&good, false).unwrap(), Some("i\n\no".to_string()));
    assert!(comparison_text(&bad, true).unwrap().is_none());
    assert!(comparison_text(&bad, false).is_err());
    assert!(comparison_text(&read_line("{}"), false).unwrap().is_none());
    let (from, to) = (Format::Alpaca, Format::ChatML);
    assert_eq!(
        convert_line(&good.reading, from, to, false).unwrap().unwrap(),
        r#"{"messages":[{"role":"user","content":"i"},{"role":"assistant","content":"o"}]}"#
    );
    assert!(convert_line(&bad.reading, from, to, true).unwrap().is_none());
    assert!(convert_line(&bad.reading, from, to, false).is_err());
    assert_eq!(line_value("[1]", false).unwrap().unwrap().to_string(), "[1]");
    assert!(line_value("[1", true).unwrap().is_none());
    assert!(line_value("[1", false).is_err());
    let mut hasher = MinHasher::new(42);
    assert!(hasher.add_line(&bad, false).is_err());
    assert!(hasher.add_line(&bad, true).is_ok());
    assert!(hasher.finish(128).is_empty());
}

#[test]
fn a_strict_check_numbers_the_line() {
    let mut summary = ValidationSummary::default();
    let good = read_line(&alpaca_text("i", "o"));
    assert!(summary.check_line(&good, Format::Alpaca, true).unwrap());
    assert!(!summary.check_line(&read_line("x"), Format::Alpaca, false).unwrap());
    let error = summary.check_line(&read_line("y"), Format::Alpaca, true).unwrap_err();
    assert_eq!(error.message(), "Invalid line at 3: y");
    assert_eq!((summary.valid_lines, summary.invalid_lines), (1, 2));
}

#[test]
fn a_line_is_kept_where_both_late_checks_pass() {
    assert!(matches!(settle(true, false), Outcome::Kept));
    assert!(matches!(settle(true, true), Outcome::Removed));
    assert!(matches!(settle(false, false), Outcome::Removed));
}

#[test]
fn invalid_lines_are_reported_in_order() {
    let input = format!("x\n{}\n{{}}", alpaca_text("i", "o"));
    let (mut output, mut invalid) = (Vec::new(), vec!["before".to_string()]);
    let lines = read_lines(&input);
    let summary =
        validate_reporting(&lines, &mut output, &mut invalid, Format::Alpaca, false).unwrap();
    assert_eq!((summary.valid_lines, summary.invalid_lines), (1, 2));
    assert_eq!(output, vec![alpaca_text("i", "o")]);
    assert_eq!(invalid, vec!["before", "x", "{}"]);
    let refused = validate_reporting(&lines, &mut output, &mut invalid, Format::Alpaca, true);
    assert_eq!(refused.unwrap_err().message(), "Invalid line at 1: x");
    assert_eq!(invalid.len(), 3);
}

fn converted_lines(input: &[String], from: Format, to: Format) -> Vec<String> {
    let lines: Vec<Line> = input.iter().map(|text| read_line(text)).collect();
    let mut output = Vec::new();
    convert(&lines, &mut output, &mut Vec::new(), from, to, false).unwrap();
    output
}

#[test]
fn conversions_lead_back() {
    let chats = vec![
        r#"{"conversations":[{"from":"human","value":"a\n\"b\""},{"from":"gpt","value":""}]}"#,
        r#"{"conversations":[{"from":"tool","value":"c"},{"from":"system","value":"d"}]}"#,
        r#"{"conversations":[]}"#,
    ];
    let chats: Vec<String> = chats.into_iter().map(|text| text.to_string()).collect();
    let there = converted_lines(&chats, Format::ShareGPT, Format::ChatML);
    assert_eq!(converted_lines(&there, Format::ChatML, Format::ShareGPT), chats);
    let roles = vec![there[0].clone(), there[1].replace("tool", "function")];
    let through = converted_lines(&roles, Format::ChatML, Format::ShareGPT);
    assert_eq!(converted_lines(&through, Format::ShareGPT, Format::ChatML), roles);
    // A speaker that the other format has already is not told from a renamed one.
    let mixed = vec![r#"{"conversations":[{"from":"user","value":"e"}]}"#.to_string()];
    let there = converted_lines(&mixed, Format::ShareGPT, Format::ChatML);
    assert_ne!(converted_lines(&there, Format::ChatML, Format::ShareGPT), mixed);
    let records = vec![
        r#"{"instruction":"i","input":"","output":"o"}"#.to_string(),
        r#"{"instruction":"i","input":"n","output":"o"}"#.to_string(),
    ];
    for chat in [Format::ShareGPT, Format::ChatML] {
        let there = converted_lines(&records, Format::Alpaca, chat);
        let back = converted_lines(&there, chat, Format::Alpaca);
        assert_eq!(back[0], records[0]);
        assert_eq!(back[1], r#"{"instruction":"i\nn","input":"","output":"o"}"#);
    }
}

#[test]
fn long_prose_without_spaces_is_counted() {
    for sentence in ["今天天气很好，我们去公园散步。", "ひらがなとカタカナー。「はい」", "한국어문장、😀！"] {
        let length = sentence.chars().count();
        let text = sentence.repeat(MAX_RUN / length + 2);
        assert!(text.chars().count() > MAX_RUN);
        assert!(can_tokenize(&text));
        let tokenizer = Tokenizer::load("cl100k_base").unwrap();
        assert!(tokenizer.count(&text) > text.chars().count() / 4);
    }
    assert!(!can_tokenize(&"天".repeat(MAX_RUN + 1)));
    assert!(!can_tokenize(&"。".repeat(MAX_RUN + 1)));
    assert!(can_tokenize(&"天".repeat(MAX_RUN)));
    assert!(can_tokenize(&"。".repeat(MAX_RUN)));
}

#[test]
fn routes_of_conversion() {
    assert_eq!(route(Format::Alpaca, Format::Parquet), Ok(Route::Table));
    assert_eq!(route(Format::Alpaca, Format::ChatML), Ok(Route::Lines));
    assert_eq!(route(Format::Parquet, Format::Alpaca), Ok(Route::Lines));
    assert_eq!(route(Format::ChatML, Format::ChatML), Err(Error::SameFormat(Format::ChatML)));
}
