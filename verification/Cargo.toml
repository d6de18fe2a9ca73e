[package]
name = "second_order_ode"
version = "0.1.0"
edition = "2021"

[dev-dependencies]
approx = "0.5"
