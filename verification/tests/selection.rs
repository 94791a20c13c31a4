use krnch::cli::Args;
use krnch::types::{FileData, OutputFormat};
use krnch::writer::{OutputWriter, WriteFailure, WriteStage};

#[test]
fn aliases_resolve_without_regard_to_case() {
    for s in ["json", "JSON", "Json", "jSoN"] {
        assert_eq!(OutputFormat::from_str(s), Ok(OutputFormat::Json));
    }
    for s in ["text", "TEXT", "txt", "Txt"] {
        assert_eq!(OutputFormat::from_str(s), Ok(OutputFormat::Text));
    }
    for s in ["xml", "XML", "Xml"] {
        assert_eq!(OutputFormat::from_str(s), Ok(OutputFormat::Xml));
    }
    for s in ["yaml", "YAML", "yml", "YmL"] {
        assert_eq!(OutputFormat::from_str(s), Ok(OutputFormat::Yaml));
    }
    for s in ["csv", "CSV", "cSv"] {
        assert_eq!(OutputFormat::from_str(s), Ok(OutputFormat::Csv));
    }
}

#[test]
fn unknown_selector_is_an_error_that_names_it() {
    for s in ["", "toml", "jso", "jsonx", " json", "json ", "te xt", "c\u{73}\u{56}\u{301}", "\u{212a}"] {
        assert_eq!(
            OutputFormat::from_str(s),
            Err(format!(
                "Unknown format: {}. Supported formats: json, text, xml, yaml, csv",
                s
            ))
        );
    }
}

#[test]
fn selector_near_the_letters_is_no_alias() {
    // '@' and '[' stand next to the capital letters, '`' and '{' next to the small ones.
    for s in ["js\u{4f}n", "JS\u{6f}N"] {
        assert_eq!(OutputFormat::from_str(s), Ok(OutputFormat::Json));
    }
    for s in ["js/n", "*son", "xm\u{2c}", "\u{58}ML\u{0}", "c\u{53}\u{36}"] {
        assert!(OutputFormat::from_str(s).is_err());
    }
}

#[test]
fn extensions() {
    assert_eq!(OutputFormat::Json.extension(), "json");
    assert_eq!(OutputFormat::Text.extension(), "txt");
    assert_eq!(OutputFormat::Xml.extension(), "xml");
    assert_eq!(OutputFormat::Yaml.extension(), "yaml");
    assert_eq!(OutputFormat::Csv.extension(), "csv");
}

#[test]
fn file_data_size_is_content_length() {
    let f = FileData::new("p".to_string(), vec![1, 2, 3]);
    assert_eq!(f.path, "p");
    assert_eq!(f.content, vec![1, 2, 3]);
    assert_eq!(f.size, 3);
    let e = FileData::new(String::new(), Vec::new());
    assert_eq!(e.size, 0);
}

#[test]
fn output_file_names() {
    let w = OutputWriter::new();
    assert_eq!(w.file_name(&OutputFormat::Json), "crunched.json");
    assert_eq!(w.file_name(&OutputFormat::Text), "crunched.txt");
    assert_eq!(w.file_name(&OutputFormat::Xml), "crunched.xml");
    assert_eq!(w.file_name(&OutputFormat::Yaml), "crunched.yaml");
    assert_eq!(w.file_name(&OutputFormat::Csv), "crunched.csv");
}

#[test]
fn write_report() {
    let w = OutputWriter::new();
    assert_eq!(w.write(&OutputFormat::Csv, Ok(())), Ok("crunched.csv".to_string()));
    let failed = WriteFailure { stage: WriteStage::Create, cause: "denied".to_string() };
    assert_eq!(
        w.write(&OutputFormat::Csv, Err(failed)),
        Err("Failed to create output file: denied".to_string())
    );
    let failed = WriteFailure { stage: WriteStage::Write, cause: "disk full".to_string() };
    assert_eq!(
        w.write(&OutputFormat::Json, Err(failed)),
        Err("Failed to write output: disk full".to_string())
    );
}

#[test]
fn args_need_path_and_format() {
    let none: Vec<String> = vec![];
    assert_eq!(Args::parse(&none).err(), Some("Missing required arguments".to_string()));
    let two = vec!["krnch".to_string(), "dir".to_string()];
    assert_eq!(Args::parse(&two).err(), Some("Missing required arguments".to_string()));
}

#[test]
fn args_take_path_and_format() {
    let args = vec!["krnch".to_string(), "some/dir".to_string(), "YAML".to_string()];
    let parsed = Args::parse(&args).ok().unwrap();
    assert_eq!(parsed.path, "some/dir");
    assert_eq!(parsed.format, OutputFormat::Yaml);
    let more = vec![
        "krnch".to_string(),
        "f.txt".to_string(),
        "csv".to_string(),
        "ignored".to_string(),
    ];
    let parsed = Args::parse(&more).ok().unwrap();
    assert_eq!(parsed.path, "f.txt");
    assert_eq!(parsed.format, OutputFormat::Csv);
}

#[test]
fn args_reject_unknown_format() {
    let args = vec!["krnch".to_string(), "dir".to_string(), "pdf".to_string()];
    assert_eq!(
        Args::parse(&args).err(),
        Some("Unknown format: pdf. Supported formats: json, text, xml, yaml, csv".to_string())
    );
}
