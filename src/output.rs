//! Display text of a JSON value in the format a user asked for.
use vstd::prelude::*;
use serde_json::Value;
use crate::cli::OutputFormat;
use crate::error::AppError;
use crate::json::{compact_text, pretty_text, yaml_text, compact_json, pretty_json, yaml_of};

verus! {

/// `data` as compact JSON, as YAML, or as pretty-printed JSON.
pub fn format_output(data: &Value, format: OutputFormat) -> (r: Result<String, AppError>)
    ensures
        format == OutputFormat::Json ==> r is Ok && r->Ok_0@ == compact_text(*data),
        format == OutputFormat::Pretty ==> r is Ok && r->Ok_0@ == pretty_text(*data),
        format == OutputFormat::Yaml ==> match r {
            Ok(t) => t@ == yaml_text(*data),
            Err(e) => e is Yaml,
        },
{
    match format {
        OutputFormat::Json => Ok(compact_json(data)),
        OutputFormat::Yaml => match yaml_of(data) {
            Ok(t) => Ok(t),
            Err(m) => Err(AppError::Yaml { message: m }),
        },
        OutputFormat::Pretty => Ok(pretty_json(data)),
    }
}

} // verus!
