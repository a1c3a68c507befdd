use winny::engine::input::{InputBuffer, KeyCode, KeyInput, KeyState};
use winny::engine::logging::LogLevel as EngineLogLevel;
use winny::engine::window::WindowPlugin as EngineWindowPlugin;
use winny::gfx::bitmap::BitMap;
use winny::gfx::noise::NoisePlugin;
use winny::gfx::texture::{build_atlas, AtlasError, AtlasImage};
use winny::logging::LogLevel;
use winny::render::BufferHandle;
use winny::window::WindowPlugin;

fn image(w: u32, h: u32, fill: u8) -> AtlasImage {
    AtlasImage { dimensions: (w, h), rgba: vec![fill; (w * h * 4) as usize] }
}

#[test]
fn atlas_stacks_images_in_one_column() {
    let atlas = build_atlas(vec![image(2, 1, 1), image(2, 1, 2), image(2, 1, 3)]).ok().unwrap();
    assert_eq!(atlas.width, 1);
    assert_eq!(atlas.height, 3);
    assert_eq!(atlas.size, (2, 3));
    let mut expected = vec![1u8; 8];
    expected.extend(vec![2u8; 8]);
    expected.extend(vec![3u8; 8]);
    assert_eq!(atlas.rgba, expected);
}

#[test]
fn atlas_errors() {
    assert_eq!(build_atlas(vec![]).err(), Some(AtlasError::InputEmpty));
    assert_eq!(
        build_atlas(vec![image(2, 2, 0), image(2, 1, 0)]).err(),
        Some(AtlasError::NonUniformDimensions)
    );
    assert_eq!(AtlasError::InputEmpty.message(), "input was empty");
    assert_eq!(
        AtlasError::NonUniformDimensions.message(),
        "cannot build atlas texture with non uniform dimensions"
    );
}

#[test]
fn bitmap_holds_its_pixels() {
    let b = BitMap::new(vec![1, 2, 3, 4, 5, 6], 3, 2);
    assert_eq!((b.width, b.height), (3, 2));
    assert_eq!(b.pixels, vec![1, 2, 3, 4, 5, 6]);
    let d = BitMap::default();
    assert_eq!((d.width, d.height, d.pixels.len()), (0, 0, 0));
}

#[test]
fn window_defaults() {
    let w = WindowPlugin::default();
    assert_eq!(w.inner_size, (1920, 1080));
    assert_eq!(w.virtual_size, (1920, 1080));
    assert_eq!(w.position, (10, 10));
    assert!(!w.close_on_escape);
    let e = EngineWindowPlugin::default();
    assert_eq!((e.inner_size, e.position, e.close_on_escape), ((1920, 1080), (10, 10), false));
}

#[test]
fn log_labels() {
    assert_eq!(LogLevel::Error.label(), "\x1b[0;31mERROR\x1b[0m");
    assert_eq!(LogLevel::Trace.tint(), "\x1b[38;2;128;128;128m");
    assert_eq!(LogLevel::Info.tint(), "");
    assert_eq!(EngineLogLevel::Warn.color(), "\x1b[0;33m");
}

#[test]
fn buffer_handle_index() {
    assert_eq!(BufferHandle(5).index(), 5);
    assert!(BufferHandle(1) < BufferHandle(2));
}

#[test]
fn noise_plugin_keeps_its_path() {
    let _p = NoisePlugin::new("res/noise.png");
}

fn key(vk: KeyCode) -> KeyInput {
    KeyInput { vk, state: KeyState::Pressed }
}

#[test]
fn input_buffer_is_a_stack() {
    let mut b = InputBuffer::default();
    assert!(b.pop().is_none());
    b.push(key(KeyCode::W));
    b.push(key(KeyCode::A));
    assert_eq!(b.pop().map(|k| k.vk), Some(KeyCode::A));
    assert_eq!(b.pop().map(|k| k.vk), Some(KeyCode::W));
    assert!(b.pop().is_none());
}

#[test]
fn input_buffer_holds_nine_inputs() {
    let mut b = InputBuffer::default();
    for _ in 0..9 {
        b.push(key(KeyCode::Escape));
    }
    for _ in 0..9 {
        assert_eq!(b.pop().map(|k| k.state), Some(KeyState::Pressed));
    }
    assert!(b.pop().is_none());
}

use winny::gfx::sprite::SpriteFrames;

#[test]
fn frames_cycle_through_their_range() {
    let mut f = SpriteFrames::from_texture_atlas(2, 2).from_range(1, 3);
    assert_eq!(f.total_frames(), 4);
    assert_eq!(f.range(), 1..3);
    assert_eq!(f.index(), 0);
    f.advance_frame();
    assert_eq!(f.index(), 1);
    f.advance_frame();
    assert_eq!(f.index(), 2);
    assert!(f.is_finished());
    f.advance_frame();
    assert_eq!(f.index(), 1);
}

#[test]
fn frames_wrap_at_the_end_of_the_atlas() {
    let mut f = SpriteFrames::from_texture_atlas(3, 1).from_range(0, 10);
    f.advance_frame();
    f.advance_frame();
    assert_eq!(f.index(), 2);
    f.advance_frame();
    assert_eq!(f.index(), 0);
}

#[test]
fn resizing_resets_a_frame_past_the_end() {
    let mut f = SpriteFrames::from_texture_atlas(4, 1);
    f.advance_frame();
    f.advance_frame();
    f.advance_frame();
    assert_eq!(f.index(), 3);
    f.set_dimensions(2, 2);
    assert_eq!(f.index(), 3);
    f.set_dimensions(1, 2);
    assert_eq!(f.index(), 0);
    let d = SpriteFrames::default().with_dimensions(5, 1);
    assert_eq!((d.total_frames(), d.range(), d.index()), (5, 0..1, 0));
    assert!(d.is_finished());
}

use winny::window::{mouse_button_event, MouseButton};

#[test]
fn mouse_button_hold_toggles() {
    let (held, again) = mouse_button_event(None, true, Some(MouseButton::Left));
    assert_eq!((held, again), (Some(MouseButton::Left), None));
    assert_eq!(mouse_button_event(held, true, Some(MouseButton::Left)), (None, Some(MouseButton::Left)));
    assert_eq!(mouse_button_event(held, true, Some(MouseButton::Right)), (Some(MouseButton::Right), None));
    assert_eq!(mouse_button_event(held, false, Some(MouseButton::Left)), (None, None));
    assert_eq!(mouse_button_event(None, true, None), (None, None));
}
