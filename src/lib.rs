//! Screenshot framing: background estimation, trailing-artifact cropping and
//! uniform padding over an in-memory RGBA raster. Beside it, the text logic of
//! two small developer tools: building agent prompts and shell commands from
//! markdown checklists, and stripping debugger breakpoints from Python sources.

pub mod background;
pub mod color;
pub mod crop;
pub mod debug_lines;
pub mod frame;
pub mod launch;
pub mod padding;
pub mod raster;
pub mod rows;
pub mod session;
pub mod todos;

