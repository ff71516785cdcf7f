//! Tokimono's verified core: the process table, its filtering, sorting,
//! tree and group layouts, the selection and key-handling state machine,
//! the braille sparkline, theme presets and configuration resolution, and
//! the layout arithmetic of the terminal user interface.
pub mod text;
pub mod process;
pub mod ordering;
pub mod table;
pub mod config;
pub mod app;
pub mod sparkline;
pub mod layout;
