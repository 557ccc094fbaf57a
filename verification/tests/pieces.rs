use std::str::FromStr;
use std::sync::Arc;

use arrow::array::{Array, ArrayRef, Int32Array, ListArray, RecordBatch, StringArray};
use arrow::datatypes::{DataType, Field, Schema};
use serde_json::Value;
use tokenmill::arrow_table::Batch;
use tokenmill::cluster::group_firsts;
use tokenmill::command::{
    dedup_plan, filter_message, is_table_path, kept_message, mode, reports_end, row_format,
    sampled_message, DedupPlan, Mode, Task,
};
use tokenmill::dedup::{SeenTexts, SemanticDedupOptions};
use tokenmill::dashboard::{log_kind, monitor_update, App, Key, LogKind, Tab};
use tokenmill::detect::{detect_fields, detect_value};
use tokenmill::fmt::{fmt_bytes, fmt_duration, fmt_number};
use tokenmill::hub::{file_listing, is_hub_uri, resolve_hf_uri, HfRepoType};
use tokenmill::minhash::{coefficients, compute_signature, permute, NUM_HASHES, PRIME};
use tokenmill::parquet::{row_line, row_lines, Batcher, BATCH_SIZE};
use tokenmill::progress::Meter;
use tokenmill::sample::{taken_place, Reservoir};
use tokenmill::table::{
    batch_fits, batch_has_columns, get_arrow_schema, json_to_record_batch, record_batch_to_json,
};
use tokenmill::{
    convert, convert_from_parquet, detect, write_parquet, Alpaca, ChatML, ChatMLMessage,
    DedupMethod, Error, FilterSummary, Format, Line, ParquetLineReader, ProgressUpdate, Reading,
    ShareGPT, ShareGPTConversation, UnionFind,
};

fn value_of(text: &str) -> Value {
    serde_json::from_str(text).unwrap()
}

fn plain_line(text: &str) -> Line {
    Line {
        text: text.to_string(),
        reading: Reading {
            alpaca: Err("not read".to_string()),
            sharegpt: Err("not read".to_string()),
            chatml: Err("not read".to_string()),
        },
    }
}

fn turn(from: &str, value: &str) -> ShareGPTConversation {
    ShareGPTConversation { from: from.to_string(), value: value.to_string() }
}

fn message(role: &str, content: &str) -> ChatMLMessage {
    ChatMLMessage { role: role.to_string(), content: content.to_string() }
}

#[test]
fn formats_are_read_in_any_case() {
    assert_eq!(Format::from_str("Alpaca"), Ok(Format::Alpaca));
    assert_eq!(Format::from_str("chatml"), Format::from_name("chatml"));
    assert!(matches!(Format::from_str("csv"), Err(Error::UnknownFormat(name)) if name == "csv"));
    assert_eq!(Format::from_name("SHAREGPT"), Ok(Format::ShareGPT));
    assert_eq!(Format::from_name("chatML"), Ok(Format::ChatML));
    assert_eq!(Format::from_name("parquet"), Ok(Format::Parquet));
    assert_eq!(Format::from_name("arrow"), Ok(Format::Arrow));
    // The Kelvin sign is lowered to an ordinary letter, which no name has.
    assert_eq!(
        Format::from_name("\u{212A}"),
        Err(Error::UnknownFormat("\u{212A}".to_string()))
    );
    for format in [Format::Alpaca, Format::ShareGPT, Format::ChatML, Format::Parquet, Format::Arrow] {
        assert_eq!(Format::from_name(format.name()), Ok(format));
        assert_eq!(Format::from_name(format.variant()), Ok(format));
        assert_eq!(Format::of_lower_name(format.name()), Some(format));
    }
    assert_eq!(Format::of_lower_name("Alpaca"), None);
}

#[test]
fn formats_of_lines() {
    assert_eq!(detect(r#"{"conversations":1,"messages":2,"instruction":3}"#), Ok(Format::ShareGPT));
    assert_eq!(detect(r#"{"messages":2,"instruction":3}"#), Ok(Format::ChatML));
    assert_eq!(detect(r#"{"instruction":null}"#), Ok(Format::Alpaca));
    assert_eq!(detect("[]"), Err(Error::NotAnObject));
    assert_eq!(detect(r#"{"a":1}"#), Err(Error::Undetected(r#"{"a":1}"#.to_string())));
    assert!(matches!(detect("nonsense"), Err(Error::Json(_))));
    assert_eq!(detect_fields(false, true, true), Some(Format::ChatML));
    assert_eq!(detect_fields(false, false, false), None);
    assert_eq!(detect_value(&value_of("1"), "1"), Err(Error::NotAnObject));
}

#[test]
fn messages_of_errors() {
    let cases = [
        (Error::Json("words".to_string()), "words"),
        (Error::NotAnObject, "Expected JSON object"),
        (Error::Undetected("{}".to_string()), "Could not auto-detect format from line: {}"),
        (Error::UnknownFormat("csv".to_string()), "Invalid format: csv"),
        (
            Error::InvalidLine { line: 1234567890123, content: "x".to_string() },
            "Invalid line at 1234567890123: x",
        ),
        (Error::SameFormat(Format::Alpaca), "Source and target formats are the same: Alpaca"),
        (Error::NotALineFormat(Format::Arrow), "Parquet/Arrow not supported directly"),
        (Error::UnsupportedTokenizer("t".to_string()), "Unsupported tokenizer: t"),
        (Error::NoSchema(Format::Parquet), "Unsupported Parquet schema for format: Parquet"),
        (Error::NoRows(Format::Arrow), "Unsupported Parquet format: Arrow"),
        (Error::WrongColumn("c".to_string()), "c"),
        (Error::NotAHubUri, "Not a Hugging Face URI"),
        (Error::IncompleteHubUri, "Invalid hf:// URI. Expected hf://repo_id/filename"),
        (Error::ExclusiveFlags, "--tui and --quiet are mutually exclusive"),
        (Error::ModelPathRequired, "--model-path is required for semantic deduplication"),
        (
            Error::ParseError {
                line: 3,
                content: "{".to_string(),
                source: "EOF while parsing".to_string(),
            },
            "Parse error at line 3: EOF while parsing",
        ),
        (Error::IoError("gone".to_string()), "IO error: gone"),
        (Error::FormatError("f".to_string()), "Format error: f"),
        (Error::UnsupportedConversion("c".to_string()), "Unsupported conversion: c"),
    ];
    for (error, text) in cases {
        assert_eq!(error.message(), text);
    }
}

#[test]
fn canonical_texts() {
    let alpaca = Alpaca {
        instruction: "i".to_string(),
        input: "n".to_string(),
        output: "o".to_string(),
    };
    assert_eq!(alpaca.canonical_text(), "i\nn\no");
    let sharegpt = ShareGPT { conversations: vec![turn("human", "a"), turn("x", "b")] };
    assert_eq!(sharegpt.canonical_text(), "a\nb");
    assert_eq!(
        sharegpt.validate(),
        Err("Invalid ShareGPT `from` value: x".to_string())
    );
    assert_eq!(ShareGPT { conversations: vec![] }.canonical_text(), "");
    let chatml = ChatML { messages: vec![message("user", "a"), message("gpt", ""), message("y", "c")] };
    assert_eq!(chatml.canonical_text(), "a\n\nc");
    assert_eq!(chatml.validate(), Err("Invalid ChatML `role` value: gpt".to_string()));
    assert_eq!(ChatML { messages: vec![message("system", "a")] }.validate(), Ok(()));
}

#[test]
fn a_table_format_has_no_canonical_text() {
    let line = plain_line("{}");
    assert_eq!(
        line.reading.canonical_text(Format::Parquet),
        Err(Error::NotALineFormat(Format::Parquet))
    );
    assert_eq!(
        line.reading.canonical_text(Format::Alpaca),
        Err(Error::Json("not read".to_string()))
    );
}

#[test]
fn records_are_written_as_json() {
    let alpaca = Alpaca {
        instruction: "say \"hi\"\n".to_string(),
        input: "\u{1}\u{1f}\u{7f}".to_string(),
        output: "日本\\".to_string(),
    };
    assert_eq!(
        alpaca.to_line(),
        "{\"instruction\":\"say \\\"hi\\\"\\n\",\"input\":\"\\u0001\\u001f\u{7f}\",\"output\":\"日本\\\\\"}"
    );
    let value = value_of(&alpaca.to_line());
    assert_eq!(value["instruction"].as_str(), Some("say \"hi\"\n"));
    assert_eq!(value["input"].as_str(), Some("\u{1}\u{1f}\u{7f}"));
    assert_eq!(ShareGPT { conversations: vec![] }.to_line(), "{\"conversations\":[]}");
    assert_eq!(
        ChatML { messages: vec![message("user", "a"), message("user", "b")] }.to_line(),
        r#"{"messages":[{"role":"user","content":"a"},{"role":"user","content":"b"}]}"#
    );
}

#[test]
fn sets_are_joined_and_found() {
    let mut sets = UnionFind::new(6);
    for i in 0..6 {
        assert_eq!(sets.find(i), i);
    }
    sets.union(4, 5);
    sets.union(3, 4);
    sets.union(5, 1);
    assert_eq!(
        (0..6).map(|i| sets.find(i)).collect::<Vec<usize>>(),
        vec![0, 1, 2, 1, 1, 1]
    );
    sets.union(3, 5);
    assert_eq!(sets.find(5), 1);
}

#[test]
fn hashes_are_remembered() {
    let mut seen = SeenTexts::new();
    assert!(seen.insert_key(1));
    assert!(seen.insert_key(0));
    assert!(!seen.insert_key(1));
    assert!(seen.insert("1"));
    assert!(!seen.insert_key(xxhash_rust::xxh3::xxh3_128(b"1")));
}

#[test]
fn coefficients_depend_on_the_seed() {
    let (a, b) = coefficients(42);
    assert_eq!((a.len(), b.len()), (NUM_HASHES, NUM_HASHES));
    assert!(a.iter().all(|x| *x >= 1 && *x < PRIME));
    assert!(b.iter().all(|x| *x < PRIME));
    assert_eq!(coefficients(42), (a.clone(), b));
    assert_ne!(coefficients(43).0, a);
}

#[test]
fn signatures_tell_shingles() {
    let (a, b) = coefficients(0);
    let sign = |text: &str| compute_signature(text, &a, &b);
    assert_eq!(sign("abcdeabcde"), sign("abcdeabcdeabcde"));
    assert_ne!(sign("abcdef"), sign("abcdeg"));
    assert_ne!(sign("abc"), sign("abd"));
    assert_eq!(sign("").len(), NUM_HASHES);
    assert_eq!(permute(u64::MAX, u64::MAX, u64::MAX), ((u64::MAX as u128 * (u64::MAX as u128 + 1)) % 2147483647) as u32);
    assert_eq!(permute(10, 3, 4), 34);
    // One shingle: each row is the hash function's value on it.
    let one = sign("abcde");
    let two = sign("abcdef");
    let other = sign("bcdef");
    for row in 0..NUM_HASHES {
        assert_eq!(two[row], one[row].min(other[row]));
        assert!((one[row] as u64) < PRIME);
    }
    assert_eq!(compute_signature("x", &[1; 128], &[0; 128])[0], compute_signature("x", &[1; 128], &[0; 128])[127]);
}

#[test]
fn groups_reach_over_others() {
    // The first and the third agree in no band, but both with the second in one.
    let mut first = [0u32; NUM_HASHES];
    let mut third = [0u32; NUM_HASHES];
    for row in 0..NUM_HASHES {
        first[row] = row as u32;
        third[row] = 1000 + row as u32;
    }
    let mut second = first;
    second[112..].copy_from_slice(&third[112..]);
    let sigs = vec![first, third, second, [7u32; NUM_HASHES]];
    assert_eq!(group_firsts(&sigs, 16), vec![true, false, false, true]);
    assert_eq!(group_firsts(&sigs, 17), vec![true, true, false, true]);
    assert_eq!(group_firsts(&sigs, 113), vec![true, true, true, true]);
    assert_eq!(group_firsts(&vec![], 1), Vec::<bool>::new());
    // It does not matter where the rows stand in which they differ.
    for apart in [1usize, 8, 25, 64, 127, 128] {
        let mut spread = first;
        for k in 0..apart {
            spread[k * NUM_HASHES / apart] = 5000;
        }
        let pair = vec![first, spread];
        assert_eq!(group_firsts(&pair, NUM_HASHES - apart), vec![true, false]);
        assert_eq!(group_firsts(&pair, NUM_HASHES - apart + 1), vec![true, true]);
    }
    assert_eq!(group_firsts(&vec![first, first], NUM_HASHES), vec![true, false]);
    assert_eq!(group_firsts(&vec![first, first], NUM_HASHES + 1), vec![true, true]);
}

#[test]
fn the_reservoir_is_filled_first() {
    assert_eq!(taken_place(1, 2), Some(1));
    assert_eq!(taken_place(2, 2), None);
    assert_eq!(taken_place(0, 0), None);
    let mut reservoir = Reservoir::new(2, 1);
    reservoir.add_line("a".to_string());
    reservoir.add_line("b".to_string());
    assert_eq!(reservoir.total_lines(), 2);
    let mut drawn = reservoir.finish();
    drawn.sort();
    assert_eq!(drawn, vec!["a".to_string(), "b".to_string()]);
}

fn alpaca_values() -> Vec<Value> {
    vec![
        value_of(r#"{"instruction":"i","input":"n","output":"o"}"#),
        value_of(r#"{"instruction":1,"output":"p"}"#),
        value_of("[]"),
    ]
}

fn chat_values() -> Vec<Value> {
    vec![
        value_of(r#"{"messages":[{"role":"user","content":"a"},{"role":"assistant","content":"b"}]}"#),
        value_of(r#"{"messages":"none"}"#),
        value_of(r#"{"messages":[{"role":2,"content":"c"},3]}"#),
    ]
}

#[test]
fn tables_of_instruction_records() {
    let schema = get_arrow_schema(Format::Alpaca).unwrap();
    let values = alpaca_values();
    assert!(batch_fits(&values, Format::Alpaca));
    let batch = json_to_record_batch(&values, Format::Alpaca, &schema).unwrap();
    assert_eq!(batch.inner.num_rows(), 3);
    assert_eq!(batch.inner.num_columns(), 3);
    let names: Vec<String> =
        batch.inner.schema().fields().iter().map(|f| f.name().clone()).collect();
    assert_eq!(names, vec!["instruction", "input", "output"]);
    let column = batch.inner.column(2).as_any().downcast_ref::<StringArray>().unwrap();
    assert_eq!((column.value(0), column.value(1), column.value(2)), ("o", "p", ""));
    assert!(batch_has_columns(&batch, Format::Alpaca));
    let rows = record_batch_to_json(&batch, Format::Alpaca).unwrap();
    assert_eq!(
        row_lines(&rows),
        vec![
            r#"{"input":"n","instruction":"i","output":"o"}"#,
            r#"{"input":"","instruction":"","output":"p"}"#,
            r#"{"input":"","instruction":"","output":""}"#,
        ]
    );
}

#[test]
fn tables_of_conversations() {
    let schema = get_arrow_schema(Format::ChatML).unwrap();
    let batch = json_to_record_batch(&chat_values(), Format::ChatML, &schema).unwrap();
    let lists = batch.inner.column(0).as_any().downcast_ref::<ListArray>().unwrap();
    assert_eq!(lists.value_offsets().to_vec(), vec![0, 2, 2, 4]);
    let rows = record_batch_to_json(&batch, Format::ChatML).unwrap();
    assert_eq!(
        row_lines(&rows),
        vec![
            r#"{"messages":[{"content":"a","role":"user"},{"content":"b","role":"assistant"}]}"#,
            r#"{"messages":[]}"#,
            r#"{"messages":[{"content":"c","role":""},{"content":"","role":""}]}"#,
        ]
    );
    let schema = get_arrow_schema(Format::ShareGPT).unwrap();
    assert_eq!(schema.field(0).name(), "conversations");
    let values = vec![value_of(r#"{"conversations":[{"from":"human","value":"a"}]}"#)];
    let batch = json_to_record_batch(&values, Format::ShareGPT, &schema).unwrap();
    let rows = record_batch_to_json(&batch, Format::ShareGPT).unwrap();
    assert_eq!(rows, values);
    assert_eq!(row_line(&rows[0]), r#"{"conversations":[{"from":"human","value":"a"}]}"#);
}

#[test]
fn formats_without_tables() {
    assert_eq!(get_arrow_schema(Format::Parquet).unwrap_err(), Error::NoSchema(Format::Parquet));
    assert!(matches!(Batcher::new(Format::Arrow), Err(Error::NoSchema(Format::Arrow))));
    let batch = numbers_batch("n");
    assert_eq!(
        record_batch_to_json(&batch, Format::Arrow).unwrap_err(),
        Error::NoRows(Format::Arrow)
    );
}

fn numbers_batch(name: &str) -> Batch {
    let schema = Arc::new(Schema::new(vec![Field::new(name, DataType::Int32, false)]));
    let column: ArrayRef = Arc::new(Int32Array::from(vec![1, 2]));
    Batch { inner: RecordBatch::try_new(schema, vec![column]).unwrap() }
}

fn lists_batch() -> Batch {
    let item = Arc::new(Field::new("item", DataType::Int32, false));
    let offsets = arrow::buffer::OffsetBuffer::new(vec![0, 1, 2].into());
    let lists =
        ListArray::try_new(item.clone(), offsets, Arc::new(Int32Array::from(vec![1, 2])), None)
            .unwrap();
    let schema = Arc::new(Schema::new(vec![Field::new("l", DataType::List(item), false)]));
    Batch { inner: RecordBatch::try_new(schema, vec![Arc::new(lists)]).unwrap() }
}

#[test]
fn columns_of_other_types_are_refused() {
    let wrong = |batch: &Batch, format: Format| match record_batch_to_json(batch, format) {
        Err(Error::WrongColumn(words)) => words,
        other => panic!("unexpected: {:?}", other),
    };
    let numbers = numbers_batch("n");
    assert!(batch_has_columns(&numbers, Format::Alpaca));
    assert_eq!(
        wrong(&numbers, Format::Alpaca),
        "Alpaca Parquet: Column 0 ('instruction') is not a StringArray"
    );
    assert_eq!(
        wrong(&numbers, Format::ShareGPT),
        "ShareGPT Parquet: Column 0 (n) is not a ListArray"
    );
    assert_eq!(
        wrong(&numbers, Format::ChatML),
        "ChatML Parquet: Column 0 ('messages') is not a ListArray"
    );
    let lists = lists_batch();
    assert!(batch_has_columns(&lists, Format::ChatML));
    assert_eq!(wrong(&lists, Format::ChatML), "ChatML Parquet: List elements are not structs");
    assert_eq!(wrong(&lists, Format::ShareGPT), "ShareGPT Parquet: List elements are not structs");
    let schema = Arc::new(Schema::new(vec![
        Field::new("a", DataType::Utf8, false),
        Field::new("b", DataType::Int32, false),
    ]));
    let columns: Vec<ArrayRef> = vec![
        Arc::new(StringArray::from(vec!["x".to_string()])),
        Arc::new(Int32Array::from(vec![1])),
    ];
    let mixed = Batch { inner: RecordBatch::try_new(schema, columns).unwrap() };
    assert!(batch_has_columns(&mixed, Format::Alpaca));
    assert_eq!(
        wrong(&mixed, Format::Alpaca),
        "Alpaca Parquet: Column 1 ('input') is not a StringArray"
    );
    // Chats are no conversations, but their columns are of the same types.
    let chats = json_to_record_batch(
        &chat_values(),
        Format::ChatML,
        &get_arrow_schema(Format::ChatML).unwrap(),
    )
    .unwrap();
    let rows = record_batch_to_json(&chats, Format::ShareGPT).unwrap();
    assert_eq!(rows[0]["conversations"][1]["value"].as_str(), Some("b"));
}

#[test]
fn missing_columns_are_told() {
    let schema = Arc::new(Schema::new(vec![Field::new("a", DataType::Utf8, false)]));
    let column: ArrayRef = Arc::new(StringArray::from(vec!["x".to_string()]));
    let single = Batch { inner: RecordBatch::try_new(schema, vec![column]).unwrap() };
    assert!(!batch_has_columns(&single, Format::Alpaca));
    assert!(batch_has_columns(&single, Format::ChatML));
    assert!(batch_has_columns(&single, Format::Parquet));
}

#[test]
fn batches_have_a_thousand_rows() {
    let lines: Vec<Line> = (0..2001)
        .map(|i| plain_line(&format!(r#"{{"instruction":"{}","output":"o"}}"#, i)))
        .collect();
    let mut batches = Vec::new();
    write_parquet(&lines, &mut batches, Format::Alpaca, false).unwrap();
    let sizes: Vec<usize> = batches.iter().map(|b: &Batch| b.inner.num_rows()).collect();
    assert_eq!(sizes, vec![BATCH_SIZE, BATCH_SIZE, 1]);
    let mut output = Vec::new();
    convert_from_parquet(&batches, &mut output, Format::Alpaca).unwrap();
    assert_eq!(output.len(), 2001);
    assert_eq!(output[1500], r#"{"input":"","instruction":"1500","output":"o"}"#);
    let mut none = Vec::new();
    write_parquet(&Vec::new(), &mut none, Format::Alpaca, false).unwrap();
    assert!(none.is_empty());
}

#[test]
fn tables_skip_malformed_lines_only_where_told() {
    let mut lines: Vec<Line> =
        (0..1000).map(|_| plain_line(r#"{"instruction":"i","output":"o"}"#)).collect();
    lines.push(plain_line("nonsense"));
    lines.push(plain_line("{}"));
    let mut output = Vec::new();
    let mut batches = Vec::new();
    let result =
        convert(&lines, &mut output, &mut batches, Format::Alpaca, Format::Parquet, false);
    assert!(matches!(result, Err(Error::Json(_))));
    assert_eq!(batches.len(), 1);
    let mut batches = Vec::new();
    convert(&lines, &mut output, &mut batches, Format::Alpaca, Format::Parquet, true).unwrap();
    assert_eq!(batches.len(), 2);
    assert_eq!(batches[1].inner.num_rows(), 1);
    assert!(output.is_empty());
    let refused = write_parquet(&lines, &mut batches, Format::Arrow, true);
    assert_eq!(refused, Err(Error::NoSchema(Format::Arrow)));
}

#[test]
fn a_misshapen_batch_ends_the_reading_of_a_table() {
    let good = json_to_record_batch(
        &alpaca_values(),
        Format::Alpaca,
        &get_arrow_schema(Format::Alpaca).unwrap(),
    )
    .unwrap();
    let mut output = Vec::new();
    let result = convert_from_parquet(&vec![good, numbers_batch("n")], &mut output, Format::Alpaca);
    assert!(matches!(result, Err(Error::WrongColumn(_))));
    assert_eq!(output.len(), 3);
}

#[test]
fn the_batcher_fills_up() {
    let mut batcher = Batcher::new(Format::ChatML).unwrap();
    assert!(batcher.is_empty());
    for _ in 0..BATCH_SIZE - 1 {
        assert!(!batcher.push(value_of("{}")));
    }
    assert!(batcher.push(value_of("{}")));
    assert!(batcher.fits());
    assert_eq!(batcher.take_batch().unwrap().inner.num_rows(), BATCH_SIZE);
    assert!(batcher.is_empty());
    batcher.push(value_of("{}"));
    batcher.clear();
    assert!(batcher.is_empty());
    assert_eq!(batcher.schema().field(0).name(), "messages");
}

#[test]
fn rows_are_read_as_a_stream_of_lines() {
    for size in 1..12 {
        let mut reader = ParquetLineReader::new(Format::Alpaca);
        assert!(reader.drained());
        let mut bytes = Vec::new();
        for lines in [vec!["ab", ""], vec!["é"]] {
            reader.feed(lines.into_iter().map(|s| s.to_string()).collect());
            while !reader.drained() {
                let piece = reader.read(size);
                assert!(piece.len() <= size);
                bytes.extend(piece);
            }
        }
        assert_eq!(String::from_utf8(bytes).unwrap(), "ab\n\né\n");
    }
    let mut reader = ParquetLineReader::new(Format::Alpaca);
    reader.feed(vec!["abc".to_string(), "d".to_string()]);
    reader.advance();
    assert_eq!(reader.chunk(), b"abc\n");
    reader.consume(1);
    assert_eq!(reader.chunk(), b"bc\n");
    reader.consume(3);
    reader.advance();
    assert_eq!(reader.chunk(), b"d\n");
    assert_eq!(reader.read(100), b"d\n");
    assert!(reader.drained());
}

#[test]
fn batches_are_read_as_rows_of_the_reader_s_format() {
    let values = vec![value_of(r#"{"instruction":"a","input":"b","output":"c"}"#)];
    let schema = get_arrow_schema(Format::Alpaca).unwrap();
    let batch = json_to_record_batch(&values, Format::Alpaca, &schema).unwrap();
    let mut reader = ParquetLineReader::new(Format::Alpaca);
    reader.feed_batch(&batch).unwrap();
    assert_eq!(
        String::from_utf8(reader.read(100)).unwrap(),
        "{\"input\":\"b\",\"instruction\":\"a\",\"output\":\"c\"}\n"
    );
    let mut reader = ParquetLineReader::new(Format::ChatML);
    assert!(reader.feed_batch(&batch).is_err());
    assert!(reader.drained());
    assert!(ParquetLineReader::new(Format::Arrow).feed_batch(&batch).is_err());
}

#[test]
fn sizes_are_written_as_floating_point_does() {
    let expected = |b: u64| match b {
        0..=1_023 => format!("{} B", b),
        1_024..=1_048_575 => format!("{:.1} KB", b as f64 / 1_024.0),
        1_048_576..=1_073_741_823 => format!("{:.1} MB", b as f64 / 1_048_576.0),
        _ => format!("{:.1} GB", b as f64 / 1_073_741_824.0),
    };
    assert_eq!(fmt_bytes(1_048_575), "1024.0 KB");
    assert_eq!(fmt_bytes(1_288_490_189), "1.2 GB");
    let mut b: u64 = 0;
    while b < 1_100_000 {
        assert_eq!(fmt_bytes(b), expected(b));
        b += 1;
    }
    let mut b: u64 = 1;
    for step in 0..60_000u64 {
        b = b.wrapping_mul(6364136223846793005).wrapping_add(1442695040888963407);
        let shifted = b >> (step % 64);
        assert_eq!(fmt_bytes(shifted), expected(shifted));
    }
    for k in 0..20_000u64 {
        for b in [1_048_576 + k * 26_214 + k % 3, 1_073_741_824 + k * 5_368_709 + k % 2, u64::MAX - k * 1023] {
            assert_eq!(fmt_bytes(b), expected(b));
        }
    }
    for bits in 30..64 {
        for b in [1u64 << bits, (1u64 << bits) - 1, (1u64 << bits) + 1] {
            assert_eq!(fmt_bytes(b), expected(b));
        }
    }
}

#[test]
fn numbers_are_grouped() {
    for (n, text) in [
        (0, "0"),
        (999, "999"),
        (1000, "1,000"),
        (1240000, "1,240,000"),
        (u64::MAX, "18,446,744,073,709,551,615"),
    ] {
        assert_eq!(fmt_number(n), text);
        assert_eq!(fmt_number(n).replace(',', ""), n.to_string());
    }
}

#[test]
fn durations() {
    for (secs, text) in [
        (0, "0s"),
        (59, "59s"),
        (60, "1m0s"),
        (3599, "59m59s"),
        (3600, "1h0m"),
        (7325, "2h2m"),
    ] {
        assert_eq!(fmt_duration(secs), text);
    }
}

#[test]
fn tabs_cycle() {
    for tab in [Tab::Dashboard, Tab::Logs, Tab::Help] {
        assert_eq!(tab.next().prev(), tab);
        assert_eq!(tab.next().next().next(), tab);
        assert_eq!(tab.next().index(), (tab.index() + 1) % 3);
    }
    assert_eq!(Tab::default().index(), 0);
}

fn update(lines: u64, bytes: u64, status: &str) -> ProgressUpdate {
    ProgressUpdate {
        lines_processed: lines,
        bytes_processed: bytes,
        status: status.to_string(),
        ..ProgressUpdate::default()
    }
}

#[test]
fn reports_are_logged() {
    let mut app = App::new(Some(4096));
    assert_eq!(app.logs.len(), 1);
    app.on_progress(update(5000, 1024, "Filtering..."), "1.5");
    assert_eq!(app.logs.len(), 1);
    assert_eq!(app.gauge_pct(), 25);
    assert_eq!(app.gauge_label(), "25%");
    app.on_progress(update(20000, 2048, "Filtering..."), "2.5");
    assert_eq!(app.logs[1], "[2.5s] 20,000 lines · 2.0 KB");
    app.on_progress(update(20000, 2048, "an error"), "3.0");
    assert_eq!(app.error_count, 1);
    assert_eq!(app.logs.len(), 3);
    assert!(!app.done);
    let mut last = update(30001, 4096, "Finished");
    last.output = Some("result".to_string());
    app.on_progress(last.clone(), "12.1");
    assert!(app.done);
    assert_eq!(app.output, Some("result".to_string()));
    assert_eq!(app.logs[3], "[12.1s] ✓ DONE — 30,001 lines  4.0 KB");
    assert_eq!(app.progress, last);
    assert_eq!(app.gauge_pct(), 100);
    assert_eq!(app.gauge_label(), "COMPLETE  4.0 KB");
    assert_eq!(app.recent_logs(2), vec![app.logs[3].clone(), app.logs[2].clone()]);
    assert_eq!(app.recent_logs(99).len(), 4);
    app.on_progress(update(10000, 1, "Finished"), "13.0");
    assert_eq!(app.logs.len(), 6);
    assert_eq!(app.output, Some("result".to_string()));
}

#[test]
fn the_log_is_bounded() {
    let mut app = App::new(None);
    for k in 1..=1200u64 {
        app.on_progress(update(k * 10_000, k, "Sampling..."), "0.0");
    }
    assert_eq!(app.logs.len(), 1000);
    assert_eq!(app.logs[999], "[0.0s] 12,000,000 lines · 1.2 KB");
    assert_eq!(app.gauge_label(), "1.2 KB processed");
    assert_eq!(app.gauge_pct(), 0);
    for _ in 0..150 {
        assert!(!app.on_key(Key::PageDown));
    }
    assert_eq!(app.selected, Some(999));
    app.scroll_up();
    assert_eq!(app.selected, Some(998));
}

#[test]
fn ticks_fill_the_histories() {
    let mut app = App::new(None);
    for k in 1..=130u64 {
        app.progress.lines_processed = k * k;
        app.progress.bytes_processed = k * 10;
        app.on_tick(16 * 1024 * 1_048_576, 4096 * 1_048_576 + 5);
    }
    assert_eq!(app.throughput_history.len(), 120);
    assert_eq!(app.throughput_history[119], 259);
    assert_eq!(app.bytes_history[0], 10);
    assert_eq!((app.mem_total_mb, app.mem_used_mb), (16384, 4096));
    assert_eq!(app.memory_pct(), 25);
    assert_eq!(app.recent(), (10, (241..260).step_by(2).sum::<u64>() as u128, 100));
    app.progress.lines_processed = 0;
    app.on_tick(0, 0);
    assert_eq!(app.throughput_history[119], 0);
    assert_eq!(app.memory_pct(), 0);
    let mut young = App::new(None);
    assert_eq!(young.recent(), (0, 0, 0));
    young.on_tick(1, 1);
    assert_eq!(young.recent().0, 1);
}

#[test]
fn keys_move_and_quit() {
    let mut app = App::new(Some(0));
    assert!(app.on_key(Key::Char('q', false)));
    assert!(app.on_key(Key::Esc));
    assert!(app.on_key(Key::Char('c', true)));
    assert!(!app.on_key(Key::Char('c', false)));
    assert!(!app.on_key(Key::Enter));
    app.on_key(Key::Char('3', false));
    assert_eq!(app.active_tab, Tab::Help);
    app.on_key(Key::Tab);
    assert_eq!(app.active_tab, Tab::Dashboard);
    app.on_key(Key::Left);
    assert_eq!(app.active_tab, Tab::Help);
    app.on_key(Key::BackTab);
    assert_eq!(app.active_tab, Tab::Logs);
    app.on_key(Key::Right);
    app.on_key(Key::Char('1', false));
    app.on_key(Key::Char('2', true));
    assert_eq!(app.active_tab, Tab::Logs);
    assert_eq!(app.gauge_pct(), 0);
    app.on_progress(update(1, 5, "Finished"), "0.1");
    assert!(app.on_key(Key::Enter));
    assert_eq!(app.selected, Some(0));
    app.on_key(Key::Down);
    assert_eq!(app.selected, Some(1));
    app.on_key(Key::Down);
    assert_eq!(app.selected, Some(1));
    app.on_key(Key::PageUp);
    assert_eq!(app.selected, Some(0));
    app.scroll_down();
    app.on_key(Key::Up);
    app.on_key(Key::Other);
    assert_eq!(app.selected, Some(0));
    assert_eq!(app.bytes_left(), Some(0));
    assert_eq!(App::new(Some(9)).bytes_left(), Some(9));
    assert_eq!(App::new(None).bytes_left(), None);
    assert_eq!(monitor_update().status, "System Monitor");
}

#[test]
fn log_lines_have_kinds() {
    assert_eq!(log_kind("[1s] ✓ DONE — 1 lines"), LogKind::Done);
    assert_eq!(log_kind("DONE"), LogKind::Done);
    assert_eq!(log_kind("an error"), LogKind::Error);
    assert_eq!(log_kind("ERR"), LogKind::Error);
    assert_eq!(log_kind("[SYSTEM] Dashboard initialised."), LogKind::System);
    assert_eq!(log_kind("[1s] 1 lines"), LogKind::Plain);
}

#[test]
fn hub_uris() {
    let parts = |uri: &str| resolve_hf_uri(uri).map(|(a, b)| format!("{} {}", a, b));
    assert_eq!(
        parts("hf://HuggingFaceFW/fineweb/sample-10BT/000_00000.parquet"),
        Ok("HuggingFaceFW/fineweb sample-10BT/000_00000.parquet".to_string())
    );
    assert_eq!(parts("hf://owner/name/file"), Ok("owner/name file".to_string()));
    assert_eq!(parts("hf://name/file"), Ok("name file".to_string()));
    assert_eq!(parts("hf://name"), Err(Error::IncompleteHubUri));
    assert_eq!(parts("hf://"), Err(Error::IncompleteHubUri));
    assert_eq!(parts("http://a/b/c"), Err(Error::NotAHubUri));
    assert_eq!(parts("hf:/"), Err(Error::NotAHubUri));
    assert!(is_hub_uri("hf://"));
    assert!(!is_hub_uri("hf:/x/"));
    assert_eq!(
        file_listing("a/b", &vec!["x".to_string(), "y/z".to_string()]),
        vec!["2 files in a/b:", "  x", "  y/z"]
    );
    assert_ne!(HfRepoType::Model, HfRepoType::Space);
}

#[test]
fn modes_of_a_run() {
    assert_eq!(mode(true, true, true), Err(Error::ExclusiveFlags));
    assert_eq!(mode(true, false, false), Ok(Mode::Monitor));
    assert_eq!(mode(false, false, false), Ok(Mode::Help));
    assert_eq!(mode(false, true, false), Ok(Mode::Help));
    assert_eq!(mode(true, false, true), Ok(Mode::Dashboard));
    assert_eq!(mode(false, true, true), Ok(Mode::Quiet));
    assert_eq!(mode(false, false, true), Ok(Mode::Inline));
}

#[test]
fn plans_of_deduplication() {
    let model = Some("bert".to_string());
    assert_eq!(dedup_plan(DedupMethod::Exact, &None), Ok(DedupPlan::Exact));
    assert_eq!(dedup_plan(DedupMethod::Minhash, &model), Ok(DedupPlan::Minhash));
    assert_eq!(
        dedup_plan(DedupMethod::Semantic, &model),
        Ok(DedupPlan::Semantic(SemanticDedupOptions { model_path: "bert".to_string() }))
    );
    let refused = dedup_plan(DedupMethod::Semantic, &None).unwrap_err();
    assert_eq!(refused, Error::ModelPathRequired);
    assert_eq!(refused.message(), "--model-path is required for semantic deduplication");
}

#[test]
fn tables_are_told_by_their_name() {
    for name in ["a.parquet", "a.b.parquet", "..parquet", "é.parquet"] {
        assert!(is_table_path(name));
        assert!(std::path::Path::new(name).extension().is_some_and(|ext| ext == "parquet"));
    }
    for name in ["", "parquet", ".parquet", "aparquet", "a.PARQUET", "a.parquet.gz", "a.jsonl", ".."] {
        assert!(!is_table_path(name));
        assert!(!std::path::Path::new(name).extension().is_some_and(|ext| ext == "parquet"));
    }
}

#[test]
fn words_of_commands() {
    assert_eq!(Task::Stats.label(), "Stats");
    assert_eq!(Task::Stats.status(), "Collecting stats...");
    assert_eq!(Task::Dedup.label(), "Deduplicating");
    assert_eq!(Task::Sample.status(), "Sampling...");
    assert!(reports_end(Task::Stats, true));
    assert!(!reports_end(Task::Stats, false));
    assert!(reports_end(Task::Dedup, false));
    assert_eq!(kept_message(7), "Done! Kept 7 lines.");
    assert_eq!(sampled_message(5, 1000), "Done! Sampled 5 lines out of 1000.");
    assert_eq!(
        filter_message(&FilterSummary { kept: 1, removed: 2, error: 3 }),
        "[filter] kept: 1  removed: 2  errors: 3"
    );
    assert_eq!(row_format(None), Format::Alpaca);
    assert_eq!(row_format(Some(Format::ChatML)), Format::ChatML);
}

#[test]
fn the_meter_reports_every_thousand_lines() {
    let mut meter = Meter::new();
    let mut reports = 0;
    for _ in 0..2500 {
        if meter.count(3) {
            reports += 1;
        }
    }
    assert_eq!(reports, 2);
    let report = meter.report(Some(Format::Alpaca), "Validating...", None);
    assert_eq!((report.lines_processed, report.bytes_processed), (2500, 7500));
    assert_eq!(report.current_format, Some(Format::Alpaca));
    assert_eq!(report.status, "Validating...");
    assert_eq!(report.output, None);
}

#[test]
fn records_are_told_by_their_lines() {
    let words = ["", "\"", "\\", "\\\"", "\n", "\\n", "\u{1}", "\\u0001", "\",\"input\":\"", "é"];
    let mut lines = Vec::new();
    for instruction in words {
        for output in words {
            let record = Alpaca {
                instruction: instruction.to_string(),
                input: String::new(),
                output: output.to_string(),
            };
            lines.push(record.to_line());
            let chat = ShareGPT { conversations: vec![turn(instruction, output)] };
            lines.push(chat.to_line());
        }
    }
    let count = lines.len();
    lines.sort();
    lines.dedup();
    assert_eq!(lines.len(), count);
}

#[test]
fn records_come_back_over_the_cuts_between_batches() {
    let turns = |k: usize| {
        let items: Vec<String> =
            (0..k % 4).map(|i| format!(r#"{{"content":"c{}\n","role":"r{}"}}"#, i, k)).collect();
        format!(r#"{{"messages":[{}]}}"#, items.join(","))
    };
    for count in [0, 1, BATCH_SIZE - 1, BATCH_SIZE, BATCH_SIZE + 1, 2 * BATCH_SIZE] {
        let texts: Vec<String> = (0..count).map(turns).collect();
        let lines: Vec<Line> = texts.iter().map(|text| plain_line(text)).collect();
        let mut batches = Vec::new();
        write_parquet(&lines, &mut batches, Format::ChatML, false).unwrap();
        assert_eq!(batches.len(), (count + BATCH_SIZE - 1) / BATCH_SIZE);
        let mut rows = Vec::new();
        for batch in &batches {
            rows.extend(record_batch_to_json(batch, Format::ChatML).unwrap());
        }
        let values: Vec<Value> = texts.iter().map(|text| value_of(text)).collect();
        assert_eq!(rows, values);
        let mut output = Vec::new();
        convert_from_parquet(&batches, &mut output, Format::ChatML).unwrap();
        assert_eq!(output, texts);
    }
}
