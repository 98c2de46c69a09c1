//! LED stripe and LED ball tools: the pixel protocol and its priorities,
//! WS2812 pulse encoding for SPI, the controller's MAC address derivation,
//! and the pixel computations of the stripe and ball animations.
pub mod batman;
pub mod ledball;
pub mod ledball_globe;
pub mod ledball_impacts;
pub mod mac_gen;
pub mod output;
pub mod rstripee;
pub mod udp_proto;
pub mod ustripe;
pub mod ustripe_sha;
pub mod ustripe_twinkling;
pub mod ws2812_spi;
