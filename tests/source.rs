use speller_rs::builder::{source_format, SourceFormat};
use speller_rs::error::BuildError;
use speller_rs::frequency::WordFrequency;
use speller_rs::source::{CsvWordLoader, JsonWordLoader, TextWordLoader};

fn strings(v: &[&str]) -> Vec<String> {
    v.iter().map(|s| s.to_string()).collect()
}

fn sorted(mut v: Vec<(String, i32)>) -> Vec<(String, i32)> {
    v.sort();
    v
}

fn pairs(v: &[(&str, i32)]) -> Vec<(String, i32)> {
    v.iter().map(|(w, c)| (w.to_string(), *c)).collect()
}

#[test]
fn text_lines_default_layout() {
    let loader = TextWordLoader::new();
    let r = loader.load_words(&strings(&["hello 5", "world 3"])).unwrap();
    assert_eq!(sorted(r), pairs(&[("hello", 5), ("world", 3)]));
}

#[test]
fn text_lines_custom_layout() {
    let loader = TextWordLoader::new().with_delimiter(b',').with_word_index(1).with_count_index(2);
    let r = loader.load_words(&strings(&["1,alpha,+7,x", "2,beta,-2"])).unwrap();
    assert_eq!(sorted(r), pairs(&[("alpha", 7), ("beta", -2)]));
    assert!(!loader.has_headers);
    assert!(loader.with_headers(true).has_headers);
}

#[test]
fn text_later_entry_wins() {
    let r = TextWordLoader::new().load_words(&strings(&["a 1", "b 2", "a 9"])).unwrap();
    assert_eq!(sorted(r), pairs(&[("a", 9), ("b", 2)]));
}

#[test]
fn text_errors() {
    let loader = TextWordLoader::new();
    assert_eq!(loader.load_words(&strings(&["hello 5", "lonely"])), Err(BuildError::TXTIndexError));
    assert_eq!(loader.load_words(&strings(&["hello five"])), Err(BuildError::ParseCountError));
    assert_eq!(loader.load_words(&strings(&["big 2147483648"])), Err(BuildError::ParseCountError));
    assert_eq!(loader.load_words(&strings(&["sign +"])), Err(BuildError::ParseCountError));
    assert_eq!(loader.load_words(&strings(&["space  5"])), Err(BuildError::ParseCountError));
    assert_eq!(loader.load_words(&strings(&["x 1", "y z", "lonely"])), Err(BuildError::ParseCountError));
    assert_eq!(
        loader.load_words(&strings(&["max 2147483647", "min -2147483648"])).map(sorted),
        Ok(pairs(&[("max", 2147483647), ("min", -2147483648)]))
    );
    assert_eq!(loader.load_words(&Vec::new()), Ok(Vec::new()));
}

#[test]
fn csv_default_layout() {
    let r = CsvWordLoader::new().load_words(b"hello,5\nworld,3\n").unwrap();
    assert_eq!(sorted(r), pairs(&[("hello", 5), ("world", 3)]));
}

#[test]
fn csv_headers_and_index() {
    let loader = CsvWordLoader::new().with_headers(true).with_word_index(1).with_count_index(2);
    let r = loader.load_words(b"id,word,count\n1,alpha,4\n2,beta,6\n").unwrap();
    assert_eq!(sorted(r), pairs(&[("alpha", 4), ("beta", 6)]));
}

#[test]
fn tsv_layout() {
    let r = CsvWordLoader::new().with_delimiter(b'\t').load_words(b"a\t1\nb\t2\n").unwrap();
    assert_eq!(sorted(r), pairs(&[("a", 1), ("b", 2)]));
}

#[test]
fn csv_errors() {
    assert_eq!(CsvWordLoader::new().load_words(b"a\n"), Err(BuildError::CSVIndexError));
    assert_eq!(CsvWordLoader::new().load_words(b"a,b\n"), Err(BuildError::ParseCountError));
    assert!(matches!(CsvWordLoader::new().load_words(b"a,1\nb,2,3\n"), Err(BuildError::CSVError(_))));
    // A bad record met before a malformed one reports its own error.
    assert_eq!(CsvWordLoader::new().load_words(b"a,x\nb,2,3\n"), Err(BuildError::ParseCountError));
}

#[test]
fn json_object() {
    let r = JsonWordLoader::new().load_words(br#"{"hello": 5, "world": 3}"#).unwrap();
    assert_eq!(sorted(r), pairs(&[("hello", 5), ("world", 3)]));
    assert!(matches!(JsonWordLoader::new().load_words(b"[1, 2]"), Err(BuildError::JsonError(_))));
    assert!(matches!(JsonWordLoader::new().load_words(br#"{"a": 1.5}"#), Err(BuildError::JsonError(_))));
}

#[test]
fn formats_by_extension() {
    assert_eq!(source_format("dict/en.json"), Ok(SourceFormat::Json));
    assert_eq!(source_format("en.csv"), Ok(SourceFormat::Csv));
    assert_eq!(source_format("en.tsv"), Ok(SourceFormat::Tsv));
    assert_eq!(source_format("./tests/files/en.txt"), Ok(SourceFormat::Txt));
    assert_eq!(source_format("en.md"), Err(BuildError::FileTypeNotSupported));
    assert_eq!(source_format("en"), Err(BuildError::FileTypeNotSupported));
    assert_eq!(source_format(".json"), Err(BuildError::FileTypeNotSupported));
    assert_eq!(source_format("en.JSON"), Err(BuildError::FileTypeNotSupported));
}

#[test]
fn frequency_accumulates_and_orders() {
    let mut f = WordFrequency::new(false);
    assert_eq!(f.unique_words(), 0);
    assert_eq!(f.longest_word(), 0);
    f.load_dict(&pairs(&[("Hello", 2), ("world", 1), ("naïve", 6)])).unwrap();
    f.load_dict(&pairs(&[("hello", 5)])).unwrap();
    assert_eq!(f.unique_words(), 3);
    assert_eq!(f.longest_word(), 5);
    assert!(f.contains("hello"));
    assert!(!f.contains("Hello"));
    let order: Vec<String> = (0..f.list_len()).map(|i| f.word_at(i).clone()).collect();
    assert_eq!(order, strings(&["world", "naïve", "hello"]));
}

#[test]
fn frequency_case_sensitive_keeps_keys_apart() {
    let mut f = WordFrequency::new(true);
    f.load_dict(&pairs(&[("Hello", 2), ("hello", 1)])).unwrap();
    assert_eq!(f.unique_words(), 2);
    assert!(f.contains("Hello"));
    assert!(f.case_sensitive());
}

#[test]
fn error_messages() {
    assert_eq!(BuildError::DictNotFound.message(), "Dictionary not found");
    assert_eq!(BuildError::IoError("missing".to_string()).message(), "IO error: missing");
    assert_eq!(BuildError::FileTypeNotSupported.message(), "File type not supported");
}

#[test]
fn test_json() {
    let json_loader = JsonWordLoader::new();
    json_loader.load_words(br#"{"the": 23135851162, "of": 13151942776}"#).unwrap_err();
    json_loader.load_words(br#"{"the": 2313585, "of": 1315194}"#).unwrap();
}

#[test]
fn test_csv() {
    let csv_loader = CsvWordLoader::new();
    csv_loader.load_words(b"the,2313585\nof,1315194\n").unwrap();
}

#[test]
fn test_csv_with_headers() {
    let csv_loader = CsvWordLoader::new().with_headers(true);
    csv_loader.load_words(b"word,count\nthe,2313585\nof,1315194\n").unwrap();
}

#[test]
fn test_csv_with_index() {
    let csv_loader = CsvWordLoader::new().with_word_index(1).with_count_index(2);
    csv_loader.load_words(b"1,the,2313585\n2,of,1315194\n").unwrap();
}

#[test]
fn test_csv_with_index_and_headers() {
    let csv_loader = CsvWordLoader::new().with_word_index(1).with_count_index(2).with_headers(true);
    csv_loader.load_words(b"id,word,count\n1,the,2313585\n2,of,1315194\n").unwrap();
}

#[test]
fn test_tsv() {
    let csv_loader = CsvWordLoader::new().with_delimiter(b'\t');
    csv_loader.load_words(b"the\t2313585\nof\t1315194\n").unwrap();
}

#[test]
fn test_txt() {
    let txt_loader = TextWordLoader::new();
    txt_loader.load_words(&strings(&["the 2313585", "of 1315194"])).unwrap();
}
