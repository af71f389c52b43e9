//! Icon theme resolution after the freedesktop.org icon theme specification.
//!
//! The library decides; the caller performs the file-system work that each
//! decision asks for (checking that a path exists, reading a descriptor) and
//! hands the answer back.
pub mod config;
pub mod query;
pub mod resolve;
pub mod search;
pub mod text;
pub mod theme;
pub mod xdg;

pub use config::ini_value;
pub use text::{join_path, parse_u32, parse_u8, split_list};
pub use theme::IconTheme;
pub use resolve::ThemeResolution;
pub use search::{BaseDirs, IconSearch, Probe};
pub use query::{
    current_theme_name, get_icon, CurrentThemeChoice, get_icon_with_size, settings_paths, IconQuery, Pixmap, Step,
    ThemeLocator, FALLBACK_THEME,
};
pub use xdg::{base_directory_candidates, data_dirs_from, dir_from, DEFAULT_DATA_DIRS};
