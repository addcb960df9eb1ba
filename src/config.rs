//! The application's settings.
use vstd::prelude::*;

verus! {

/// All settings.
pub struct AppConfig {
    pub server: ServerConfig,
    pub logging: LoggingConfig,
    pub storage: StorageConfig,
}

/// Where JSON is fetched from, and how patiently.
pub struct ServerConfig {
    pub base_url: String,
    pub timeout_seconds: u64,
    pub retry_attempts: u32,
}

/// What is logged, and to which file besides standard output.
pub struct LoggingConfig {
    pub level: String,
    pub file_path: Option<String>,
}

/// Where records are kept, and how large one may be.
pub struct StorageConfig {
    pub data_dir: String,
    pub max_file_size_mb: u64,
}

impl Default for AppConfig {
    fn default() -> (r: AppConfig)
        ensures
            r.server.base_url@ == "https://api.example.com"@,
            r.server.timeout_seconds == 30,
            r.server.retry_attempts == 3,
            r.logging.level@ == "info"@,
            r.logging.file_path is None,
            r.storage.data_dir@ == "./data"@,
            r.storage.max_file_size_mb == 100,
    {
        AppConfig {
            server: ServerConfig {
                base_url: String::from_str("https://api.example.com"),
                timeout_seconds: 30,
                retry_attempts: 3,
            },
            logging: LoggingConfig { level: String::from_str("info"), file_path: None },
            storage: StorageConfig { data_dir: String::from_str("./data"), max_file_size_mb: 100 },
        }
    }
}

impl LoggingConfig {
    /// The logging settings of a run: at debug level when `verbose`, else as configured.
    pub fn for_run(&self, verbose: bool) -> (r: LoggingConfig)
        ensures
            verbose ==> r.level@ == "debug"@,
            !verbose ==> r.level == self.level,
            r.file_path == self.file_path,
    {
        let level = if verbose {
            String::from_str("debug")
        } else {
            self.level.clone()
        };
        let file_path = match &self.file_path {
            Some(p) => Some(p.clone()),
            None => None,
        };
        LoggingConfig { level, file_path }
    }
}

} // verus!
