[package]
name = "terra_wm"
version = "0.1.0"
edition = "2021"
publish = false

[dependencies]
smithay = { version = "0.7", default-features = false, features = ["wayland_frontend", "desktop", "backend_winit", "renderer_gl", "backend_egl", "backend_drm", "backend_gbm", "backend_libinput", "backend_session_libseat", "backend_udev"] }
smithay-drm-extras = "*"
tracing = "0.1"
tracing-subscriber = { version = "0.3", features = ["env-filter"] }
