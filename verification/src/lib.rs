//! Decoding of JESD84-B51 extended CSD register dumps and lookup of the
//! register fields that a field sheet describes.

pub mod error;
pub mod text;
pub mod jesd84_b51;
pub mod csd_slice;
pub mod sheet_orm;
pub mod out_dto;
pub mod cli;
pub mod json_sheet;
