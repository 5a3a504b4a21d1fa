//! Convolution.

pub mod depthwise_conv1d;
