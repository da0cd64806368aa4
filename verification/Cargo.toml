[package]
name = "prov_mutate"
version = "0.1.0"
edition = "2021"
publish = false

[dependencies]
fig = "=5.2.0"
twig-doc = "=4.1.0"
sha2 = "=0.11.1"
moid = "=1.0.0"
