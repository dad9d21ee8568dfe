//! Verified engine for editing the color palette embedded in a design-tool
//! document: conversion between hexadecimal RGB text and HSL triples,
//! tint-scale generation from a seed color over the canonical stop grid, and
//! reconciliation of generated scales into an existing named palette.

pub mod adapter;
pub mod codec;
pub mod engine;
pub mod errors;
pub mod num;
pub mod palette;
pub mod scale;
pub mod strutil;
