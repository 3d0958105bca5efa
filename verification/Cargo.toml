[package]
name = "rss_shuffle"
version = "0.1.0"
edition = "2021"
publish = false

[dependencies]
arrow = { version = "*", default-features = false, features = ["ipc"] }
async-trait = "*"
datafusion = { version = "*", default-features = false }
futures = "*"
hdfs-native = "*"
hdfs-native-object-store = "*"
jni = "*"
log = "*"
once_cell = "*"
panic-message = "*"
