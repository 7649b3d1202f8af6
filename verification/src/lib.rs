pub mod config_map;
pub mod encoder;
pub mod laws;
pub mod parser;
pub mod registry;
pub mod text;

pub use config_map::ConfigMap;
pub use encoder::create_querystring;
pub use parser::parse;
pub use registry::init_keymap;
pub use registry::is_key;
