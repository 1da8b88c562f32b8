//! An application launcher's core: reading desktop entries, ranking them
//! against a keyword, and keeping launch counts.

pub mod app_data_object;
pub mod app_loader;
pub mod app_provider;
pub mod app_runner;
pub mod app_usage;
pub mod config_data;
pub mod env;
pub mod launcher_window;
pub mod mock;
pub mod model;
pub mod search_engine;
pub mod search_result_item;
pub mod settings_window;
pub mod str_util;
pub mod system_env;
pub mod text;

pub use app_loader::AppLoader;
pub use app_runner::AppRunner;
pub use app_usage::AppUsage;
pub use env::Env;
pub use model::{AppEntry, Apps};
pub use search_engine::SearchEngine;
pub use str_util::StrUtil;
