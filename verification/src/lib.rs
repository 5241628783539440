pub mod archive;
pub mod border;
pub mod card_query;
pub mod card_source;
pub mod card_store;
pub mod catalog;
pub mod collection;
pub mod collection_builder;
pub mod collection_manager;
pub mod db_storage;
pub mod error;
pub mod image_codec;
pub mod image_scanner;
pub mod local_image_provider;
pub mod models;
pub mod naming;
pub mod mpc;
pub mod netrunnerdb;
pub mod options;
pub mod order;
pub mod paths;
pub mod pdf;
pub mod query;
pub mod request_laws;
pub mod sql;
pub mod sql_reader;
pub mod text;
