[package]
name = "eeprom"
version = "0.1.0"
edition = "2021"
publish = false

[dependencies]
stm32f1xx-hal = { version = "*", features = ["stm32f103", "medium"] }
