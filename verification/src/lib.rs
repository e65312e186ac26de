//! Fraud scoring for card transactions: the request framing, the lenient JSON
//! reader, the feature rules and the inverted-file index search of the API.

pub mod answers;
pub mod bytes;
pub mod coarse;
pub mod coordinates;
pub mod decimal;
pub mod document;
pub mod exactness;
pub mod fields;
pub mod files;
pub mod framing;
pub mod grammar;
pub mod http;
pub mod ieee;
pub mod iso;
pub mod ivf_index;
pub mod json;
pub mod locality;
pub mod mapped;
pub mod neighbours;
pub mod order;
pub mod parser;
pub mod ranking;
pub mod resolve;
pub mod response;
pub mod run;
pub mod search;
pub mod settled;
pub mod timestamps;
pub mod types;
pub mod values;
pub mod vectorize;
pub mod voters;
pub mod written;

