//! Codecs for DNS service-locator (SRV) and service-binding (SVCB/HTTPS)
//! resource-record payloads: conversion between the in-memory record value,
//! its big-endian wire encoding, and its zone-file text presentation.

pub mod errors;
pub mod binary;
pub mod name;
pub mod registry;
pub mod srv;
pub mod svcb;
pub mod text;
