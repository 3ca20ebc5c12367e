[package]
name = "n3gb-rs"
version = "0.1.0"
edition = "2021"
publish = false

[dependencies]
base64 = "=0.22.1"
geo = "=0.33.1"
geo-types = "=0.7.20"
geojson = "=1.0.0"
wkt = "=0.14.0"
csv = "=1.4.0"
proj = "=0.31.0"
arrow-array = "=59.3.1"
arrow-schema = "=59.3.1"
geoarrow-array = "=0.9.0"
geoarrow-schema = "=0.9.0"
geoparquet = "=0.9.0"
parquet = "=59.3.1"
