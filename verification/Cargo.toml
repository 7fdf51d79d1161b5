[package]
name = "extendo-core"
version = "0.5.0"
edition = "2021"
publish = false

[dependencies]
jpeg-encoder = "0.6"
tokio = { version = "1", features = ["rt-multi-thread", "macros", "net", "io-util", "sync", "time"] }
windows-capture = "1.5"
windows = { version = "0.62", features = ["Win32_Foundation", "Win32_Media_MediaFoundation", "Win32_System_Com", "Win32_System_Ole", "Win32_System_Variant"] }
