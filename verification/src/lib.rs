//! Regression comparison of band files.
//!
//! A band file is a raw array of single precision samples, the lowest byte
//! of each first. A run compares each band file of the working directory
//! with the file of the same name in a baseline directory, sample by
//! sample, and tells whether the largest absolute difference is greater
//! than a tolerance.
//!
//! Samples are held by their bit patterns throughout:
//! - [`binary32`] says what number a bit pattern stands for and how two are
//!   ordered;
//! - [`rounding`] rounds an exact size to the nearest such number;
//! - [`difference`] computes `|a - b|` for two samples, and the largest one
//!   over two sample buffers;
//! - [`samples`] turns the bytes of a file into samples and back;
//! - [`names`] tells the names of band files from others;
//! - [`run`] is the comparison itself, which asks for the bytes of one file
//!   after the other and ends with a verdict.

pub mod binary32;
pub mod difference;
pub mod names;
pub mod rounding;
pub mod run;
pub mod samples;
