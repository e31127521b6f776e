//! Restbus data extraction from AUTOSAR (ARXML) descriptions, the resource
//! storage of the management service with its transactions and notifications,
//! the decisions of the client registration service, and a peer accessory.

pub mod integer_text;
pub mod string_map;
pub mod arxml_document;
pub mod autosar;
pub mod arxml_structs;
pub mod init_values;
pub mod timed_frames;
pub mod arxml_utils;
pub mod arxml_parser;

pub mod resource_map;
pub mod resources;
pub mod storage;
pub mod manager;

pub mod registration;
pub mod accessory;
