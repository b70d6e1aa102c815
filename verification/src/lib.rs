//! Device tree models, parsers and renderers.
pub mod text;
pub mod model;
pub mod render;
pub mod phandle;
pub mod dtb;
pub mod live;
pub mod pp_expr;
pub mod dts_lex;
pub mod dts;
pub mod dts_prov;
pub mod cond_chain;
