use spritesheet_gen::max_rect::{MaxRectsBinPack, Rect};
use spritesheet_gen::{place_sprite, SpritePlacement, SpriteSheetGenConfig};

#[test]
fn config_defaults() {
    let cfg = SpriteSheetGenConfig::default();
    assert_eq!(cfg.dir().as_str(), "./");
    assert_eq!(cfg.width(), 1024);
    assert_eq!(cfg.height(), 1024);
    assert_eq!(cfg.padding(), 2);
    assert!(!cfg.is_rotation());
    assert!(cfg.out_file().is_none());
    assert!(cfg.sprite_list().is_empty());
}

#[test]
fn config_setters() {
    let mut cfg = SpriteSheetGenConfig::default();
    cfg.set_dir("assets/icons");
    cfg.set_size(512, 256);
    assert_eq!((cfg.width(), cfg.height()), (512, 256));
    cfg.set_width(300);
    cfg.set_height(200);
    cfg.set_padding(0);
    cfg.set_is_rotation(true);
    cfg.set_out_file("sheet");
    cfg.set_sprite_list(vec![String::from("a.png"), String::from("b.png")]);
    assert_eq!(cfg.dir().as_str(), "assets/icons");
    assert_eq!(cfg.width(), 300);
    assert_eq!(cfg.height(), 200);
    assert_eq!(cfg.padding(), 0);
    assert!(cfg.is_rotation());
    assert_eq!(cfg.out_file().clone(), Some(String::from("sheet")));
    assert_eq!(cfg.sprite_list().clone(), vec![String::from("a.png"), String::from("b.png")]);
}

#[test]
fn sprite_padding_is_taken_off() {
    let mut p = MaxRectsBinPack::new(100, 100, false);
    let r = place_sprite(&mut p, 10, 4, 2);
    assert_eq!(
        r,
        Some(SpritePlacement { rect: Rect { x: 2, y: 2, width: 10, height: 4 }, rotated: false })
    );
    assert_eq!(p.used_rect()[0], Rect { x: 0, y: 0, width: 14, height: 8 });
}

#[test]
fn sprite_turned_is_reported() {
    let mut p = MaxRectsBinPack::new(20, 100, true);
    place_sprite(&mut p, 10, 30, 0);
    let r = place_sprite(&mut p, 30, 6, 0);
    assert_eq!(
        r,
        Some(SpritePlacement { rect: Rect { x: 10, y: 0, width: 6, height: 30 }, rotated: true })
    );
}

#[test]
fn sprite_too_large_is_skipped() {
    let mut p = MaxRectsBinPack::new(16, 16, false);
    assert_eq!(place_sprite(&mut p, 14, 14, 2), None);
    assert!(p.used_rect().is_empty());
    assert_eq!(place_sprite(&mut p, 12, 12, 2).map(|s| s.rect), Some(Rect { x: 2, y: 2, width: 12, height: 12 }));
}

#[test]
fn sprite_with_empty_or_huge_extent_is_skipped() {
    let mut p = MaxRectsBinPack::new(16, 16, false);
    assert_eq!(place_sprite(&mut p, 0, 5, 0), None);
    assert_eq!(place_sprite(&mut p, u32::MAX, 5, 0), None);
    assert_eq!(place_sprite(&mut p, 4, 4, u32::MAX / 2), None);
    assert!(p.used_rect().is_empty());
    assert_eq!(p.free_rect().len(), 1);
}

#[test]
fn output_name_falls_back() {
    let mut cfg = SpriteSheetGenConfig::default();
    assert_eq!(cfg.out_name(None), "default");
    assert_eq!(cfg.out_name(Some("icons")), "icons");
    cfg.set_out_file("atlas");
    assert_eq!(cfg.out_name(Some("icons")), "atlas");
}
