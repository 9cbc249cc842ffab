//! A dynamically typed value tree (object, array, scalar) with a JSON reader
//! and a canonical compact JSON writer.
//!
//! * `dxvalue` holds the tree (`DxValue`, `Key_Value`, `Slots`) and its
//!   mathematical model (`Node`);
//! * `dxvalue::access` reads it: lookups by name and by index, coercions;
//! * `dxvalue::mutate` changes it: scalar setters, members and elements;
//! * `dxvalue::json` defines JSON text, writes it and reads it;
//! * `dxvalue::reader` holds the reader's scanning functions;
//! * `dxvalue::roundtrip` proves that written text reads back;
//! * `dxvalue::decimal` holds exact decimal numbers, the payload of the
//!   floating-point variants;
//! * `dxvalue::text` holds digit runs, integer text and string helpers.

#![allow(non_camel_case_types, non_snake_case)]

pub mod dxvalue;
