//! Start-up bootstrap for a command-line tool: choosing and merging
//! dotenv-style files from a directory, and spotting proxy settings.
pub mod env;
pub mod load;
pub mod names;
pub mod proxy;

pub use env::EnvStore;
pub use load::{load_dotenv_files, load_env_file, record_load, EnvFile, LoadOutcome, LoadReport};
pub use names::{is_env_file, load_order, DOTENV, ROBLOX_DOTENV};
pub use proxy::{check_proxy_config, ProxyReport};
