[package]
name = "bevy_level_plan"
version = "0.1.0"
edition = "2021"
publish = false

[dependencies]
bevy = { version = "=0.2.1", default-features = false }
# No source file names notify. bevy_asset 0.2.1 asks for notify "5.0.0-pre.2"
# for its file watcher, which would resolve to a later release whose API it
# does not compile against; this line holds it to a release that it does.
notify = "=5.0.0-pre.3"
