//! Verified core of the Paws engine: the DOM tree and shadow trees, event
//! dispatch, stacking contexts and paint order, the I/O layer, the
//! resource manager, and the structural passes of the native-layer
//! renderer (flattening, frame diff, scroll-container chains).
//!
//! Not part of this crate: style resolution and the cascade (stylesheets,
//! inline styles, computed style maps), layout and text shaping, hit
//! testing, and the commit of styles and layout to the renderer. They rest
//! on the `stylo`, `taffy` and `parley` engines and on floating-point
//! geometry; only the decisions the engine takes on top of them that need
//! neither (stacking contexts, paint order, the style parent of a node)
//! stand here.

pub mod arena;
pub mod base64;
pub mod blob;
pub mod diff;
pub mod cache;
pub mod document;
pub mod events;
pub mod flatten;
pub mod hashing;
pub mod io;
pub mod node;
pub mod resources;
pub mod runtime;
pub mod scroll;
pub mod stacking;
pub mod text;
