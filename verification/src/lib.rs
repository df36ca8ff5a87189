//! Host-side library of the temperature and humidity collector: the byte
//! format of the readings sent by the device, their CSV rendering, the
//! parsing of earlier records and command-line options, and the decisions of
//! the serial exchange with the device.

pub mod text;
pub mod pico_interface;
pub mod csv;
pub mod pc_code;
pub mod commands;
