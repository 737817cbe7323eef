//! resizer prepares images and videos for the web by driving ffmpeg: it crops
//! them to the wanted format, fits them into a box and a number of bytes, and
//! never touches the originals.
//!
//! The library holds every decision of the program as functions on plain
//! values, each with a contract. What is read from the disk, from the network
//! and from other programs comes in as arguments; what is to be done goes out
//! as results.
//!
//! - [`plan`] decides the size, the crop and the rate control of an encode.
//! - [`exif`] reads the orientation that an image file states.
//! - [`ffmpeg`] makes the arguments of each call, and reads the answers.
//! - [`jobs`] picks the files, names their results and steers each encode.
//! - [`install`] offers ways to install ffmpeg, and spells out their steps.
//! - [`server`] is the graphical interface's side of the conversation.
//! - [`cli`] is the terminal's.
//!
//! What all of this comes to for the user is stated beside them: [`framing`] is
//! about the picture, [`coverage`] about the bits that it gets, [`budget`] about
//! the size cap, [`encoding`] about what ffmpeg is told, [`probing`] and
//! [`stating`] about what is read of a source, [`walking`] about the files that
//! are collected, [`asking`] about what the user asks for, [`guarding`] about who
//! is let in and what things are called, and [`offering`] about finding and
//! installing ffmpeg.
//!
//! Below them, [`double`] is binary64 arithmetic; [`decimal`] reads its numbers
//! and rounds them to one decimal, and [`shortest`] writes them in full.
//! [`path`] and [`tree`] are paths and directories as values, [`json`] is JSON,
//! and [`text`] is everything that is done with strings.
pub mod asking;
pub mod budget;
pub mod cli;
pub mod coverage;
pub mod decimal;
pub mod double;
pub mod encoding;
pub mod exif;
pub mod ffmpeg;
pub mod framing;
pub mod guarding;
pub mod install;
pub mod jobs;
pub mod json;
pub mod offering;
pub mod path;
pub mod plan;
pub mod probing;
pub mod server;
pub mod shortest;
pub mod stating;
pub mod text;
pub mod tree;
pub mod walking;
