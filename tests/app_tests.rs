use rcli::cli::OutputFormat;
use rcli::config::{AppConfig, LoggingConfig};
use rcli::error::AppError;
use rcli::output::format_output;
use serde_json::Value;

fn json(text: &str) -> Value {
    serde_json::from_str(text).unwrap()
}

#[test]
fn output_formats() {
    let v = json(r#"{"x": 1}"#);
    assert_eq!(format_output(&v, OutputFormat::Json).unwrap(), r#"{"x":1}"#);
    assert_eq!(format_output(&v, OutputFormat::Pretty).unwrap(), "{\n  \"x\": 1\n}");
    assert_eq!(format_output(&v, OutputFormat::Yaml).unwrap(), "x: 1\n");
    assert_eq!(OutputFormat::or_default(None), OutputFormat::Pretty);
    assert_eq!(OutputFormat::or_default(Some(OutputFormat::Yaml)), OutputFormat::Yaml);
}

#[test]
fn default_config() {
    let c = AppConfig::default();
    assert_eq!(c.server.base_url, "https://api.example.com");
    assert_eq!(c.server.timeout_seconds, 30);
    assert_eq!(c.server.retry_attempts, 3);
    assert_eq!(c.logging.level, "info");
    assert_eq!(c.logging.file_path, None);
    assert_eq!(c.storage.data_dir, "./data");
    assert_eq!(c.storage.max_file_size_mb, 100);
}

#[test]
fn verbose_runs_log_at_debug() {
    let l = LoggingConfig { level: "warn".to_string(), file_path: Some("log.txt".to_string()) };
    assert_eq!(l.for_run(true).level, "debug");
    assert_eq!(l.for_run(false).level, "warn");
    assert_eq!(l.for_run(true).file_path, Some("log.txt".to_string()));
}

#[test]
fn errors_describe_themselves() {
    let e = AppError::NotFound { resource: "key 'k'".to_string() };
    assert_eq!(e.describe(), "Not found: key 'k'");
    let e = AppError::Validation { message: "too big".to_string() };
    assert_eq!(e.describe(), "Validation error: too big");
}
