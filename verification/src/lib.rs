//! The state and the rules of an RTSP camera viewer: a tree of connections, saved
//! grids of cameras, what plays on the wall, and how a stream turns into pictures.

pub mod action_laws;
pub mod connection;
pub mod decode;
pub mod edit_laws;
pub mod editing;
pub mod forms;
pub mod grid;
pub mod grid_laws;
pub mod id;
pub mod library;
pub mod picture_laws;
pub mod platform;
pub mod player;
pub mod prefs;
pub mod probe;
pub mod screen;
pub mod session;
pub mod session_laws;
pub mod shape_laws;
pub mod sheet_laws;
pub mod sidebar;
pub mod text;
pub mod tree;
pub mod tree_laws;
pub mod walk;
pub mod wall;
pub mod wall_laws;
pub mod window;
pub mod window_laws;
pub mod yuv;
