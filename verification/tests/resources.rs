use ecs_game::game::resources::{AssetManager, GameConfig};

#[test]
fn test_game_config_default() {
    let config = GameConfig::default();
    assert_eq!(config.title, "ECS WebAssembly Game");
    assert_eq!(config.width, 800);
    assert_eq!(config.height, 600);
    assert_eq!(config.target_fps, 60);
}

#[test]
fn test_asset_manager_default() {
    let assets = AssetManager::default();
    assert!(assets.image_paths.is_empty());
    assert!(assets.sound_paths.is_empty());
}

#[test]
fn asset_paths_are_found_and_replaced() {
    let mut assets = AssetManager::new();
    assert_eq!(assets.get_image_path("hero"), None);
    assets.register_image("hero".to_string(), "img/hero.png".to_string());
    assets.register_sound("boom".to_string(), "snd/boom.ogg".to_string());
    assert_eq!(assets.get_image_path("hero").map(|s| s.as_str()), Some("img/hero.png"));
    assert_eq!(assets.get_sound_path("boom").map(|s| s.as_str()), Some("snd/boom.ogg"));
    assert_eq!(assets.get_sound_path("hero"), None);
    assets.register_image("hero".to_string(), "img/hero2.png".to_string());
    assert_eq!(assets.get_image_path("hero").map(|s| s.as_str()), Some("img/hero2.png"));
    assert_eq!(assets.image_paths.len(), 1);
    assert!(!assets.loaded);
}
