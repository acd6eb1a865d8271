//! Recording, timeline and capture logic of a classroom agent.

pub mod text;
pub mod double;
pub mod json;
pub mod kinds;
pub mod schema;
pub mod fold;
pub mod track;
pub mod health;
pub mod timeline;
pub mod readable;
pub mod digest;
pub mod table;
pub mod store;
pub mod protocol;
pub mod supervisor;
pub mod serve;
pub mod http;
pub mod server;
pub mod opts;
pub mod client;
pub mod gray;
pub mod phash;
pub mod pngio;
pub mod capture;
pub mod screen;
pub mod vad;
pub mod wav;
pub mod audio;
pub mod audiofile;
pub mod fake;
pub mod board;
