//! The runtime: capabilities, host state, content, media and rendering.
pub mod tokens;
pub mod string_map;
pub mod capability;
pub mod stub;
pub mod host_laws;
pub mod wasm;
pub mod js_bridge;
pub mod xml;
pub mod dash;
pub mod duration_laws;
pub mod stream_laws;
pub mod content;
pub mod p2p;
pub mod p2p_libp2p;
pub mod swarm_laws;
pub mod media_decode;
pub mod html;
pub mod nesting;
pub mod nesting_laws;
pub mod css;
pub mod layout;
pub mod display_list;
pub mod software_raster;
pub mod screenshot_diff;
pub mod render_laws;
pub mod document_laws;
pub mod raster;
pub mod gpu;
pub mod js;
pub mod fonts;
pub mod guest;
