[package]
name = "ustripe"
version = "0.1.0"
edition = "2021"
publish = false

[dependencies]
sha-1 = "0.10.1"
rand = "0.4.6"
haversine = "0.2.1"
image = "0.19.0"
smoltcp = "0.5.0"
managed = "0.7.2"
dft = "0.5.5"
pulse-simple = "1.0.1"
nb = "0.1.3"
embedded-hal = "0.2.7"
cortex-m = "0.5.11"
cortex-m-rt = "0.5.7"
cortex-m-semihosting = "0.3.7"
panic-itm = "0.4.2"
stm32f429 = "0.5.0"
stm32-eth = "0.1.2"
