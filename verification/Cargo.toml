[package]
name = "jm_math"
version = "0.1.0"
edition = "2021"

[dependencies]
const_soft_float = "=0.1.4"
rayon = "=1.12.0"
regex = "=1.13.1"
devtimer = "=4.0.1"
