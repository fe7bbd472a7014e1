//! The usage of a language model, by the minute and by the day, and how far its rate limits
//! are used up.
//!
//! The log is read into lines (`usage`), which are shared out into buckets (`buckets`,
//! `snapshot`) and days (`days`). Local services are asked for the live rate limits (`poll`)
//! and for new usage to put into the log (`search`, `importer`): these modules decide what to
//! ask for next, and leave the asking to their caller.
pub mod buckets;
pub mod calendar;
pub mod calendar_laws;
pub mod clock;
pub mod days;
pub mod exact;
pub mod http;
pub mod import_laws;
pub mod importer;
pub mod json;
pub mod log;
pub mod messages;
pub mod num;
pub mod poll;
pub mod ports;
pub mod ratelimit;
pub mod search;
pub mod service_laws;
pub mod sessions;
pub mod snapshot;
pub mod text;
pub mod text_laws;
pub mod url;
pub mod usage;
pub mod window_laws;
