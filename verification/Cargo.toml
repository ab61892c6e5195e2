[package]
name = "storefront"
version = "0.1.0"
edition = "2021"
publish = false

[dependencies]
actix-files = "0.6"
actix-web = { version = "4", default-features = false, features = ["cookies", "macros"] }
async-stripe = { version = "*", default-features = false, features = ["runtime-tokio-hyper-rustls"] }
csv = "1"
dotenv = "0.15"
futures = "0.3"
serde = { version = "1", features = ["derive"] }
sqlx = { version = "0.7", default-features = false, features = ["postgres", "runtime-tokio-rustls"] }
tera = { version = "1", default-features = false }
