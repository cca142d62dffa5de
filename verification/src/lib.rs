//! A Telegram bot that turns a photographed trail map into published map
//! pages: the conversation logic, the command registry, the trail tracer
//! over a colour mask and the text helpers they rest on.

pub mod command_handler;
pub mod text;
pub mod geo_coder;
pub mod tracker;
pub mod urls;
pub mod bot;
pub mod picture;
