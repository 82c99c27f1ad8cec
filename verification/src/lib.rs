//! Decision logic of an AV1 encoder.
//!
//! The modules take the decisions of an encoder's searches and leave the work
//! on signals to their callers. Where a decision needs the result of a
//! transform, a quantizer or a model in floating point, that result is an
//! argument: a value, a flag, a function, or a tape of answers to what the
//! decision asked for.
//!
//! - Blocks: [`block`], [`samples`], [`pred_mode`], [`arith`], [`rd`].
//! - Partitions from variance: [`var_part`], [`var_part_inter`].
//! - Transforms within a frame: [`tx_search`], [`type_search`],
//!   [`tx_size_search`].
//! - Transforms of blocks predicted from a frame: [`var_tx`], [`var_tx_tree`],
//!   [`var_tx_uv`].
//! - Modes predicted from frames: [`rdopt_single_state`], [`rdopt_skip`],
//!   [`rdopt_sse`], [`rdopt_var_rd`].
//! - Groups of pictures: [`ref_gop`], [`frame_flags`], [`tpl_model`],
//!   [`tpl_gop`], [`tpl_costs`], [`temporal_filter`].
//! - Frame sizes: [`resize`], [`resize_filters`], [`resize_smooth`],
//!   [`superres_select`].
//! - Settings: [`speed_features`], [`screen_detect`], [`seq_level`],
//!   [`real_costs`].

pub mod arith;
pub mod block;
pub mod frame_flags;
pub mod pred_mode;
pub mod rd;
pub mod rdopt_single_state;
pub mod rdopt_skip;
pub mod rdopt_sse;
pub mod rdopt_var_rd;
pub mod real_costs;
pub mod ref_gop;
pub mod resize;
pub mod resize_filters;
pub mod resize_smooth;
pub mod samples;
pub mod screen_detect;
pub mod seq_level;
pub mod speed_features;
pub mod superres_select;
pub mod temporal_filter;
pub mod tpl_costs;
pub mod tpl_gop;
pub mod tpl_model;
pub mod tx_search;
pub mod tx_size_search;
pub mod type_search;
pub mod var_part;
pub mod var_part_inter;
pub mod var_tx;
pub mod var_tx_tree;
pub mod var_tx_uv;
