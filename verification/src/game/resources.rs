//! Shared game settings and the registry of asset paths.

use vstd::prelude::*;
use crate::server::utils::{find_param, insert_param, keys_distinct, lemma_pairs_map_value, pairs_map};

verus! {

/// The game's basic settings.
#[derive(Debug, Clone)]
pub struct GameConfig {
    pub title: String,
    pub width: u32,
    pub height: u32,
    /// The frame rate the loop aims at.
    pub target_fps: u32,
}

impl Default for GameConfig {
    /// An 800 by 600 window titled "ECS WebAssembly Game", at 60 frames a
    /// second.
    fn default() -> (r: Self)
        ensures
            r.title@ == "ECS WebAssembly Game"@,
            r.width == 800,
            r.height == 600,
            r.target_fps == 60,
    {
        GameConfig { title: String::from_str("ECS WebAssembly Game"), width: 800, height: 600, target_fps: 60 }
    }
}

/// Where the images and sounds are found, by id. Only paths are kept.
#[derive(Debug, Clone)]
pub struct AssetManager {
    /// Image id and path, each id once.
    pub image_paths: Vec<(String, String)>,
    /// Sound id and path, each id once.
    pub sound_paths: Vec<(String, String)>,
    /// Whether the assets were loaded.
    pub loaded: bool,
}

/// The path recorded for `id` in `paths`, if any.
fn lookup_path<'a>(paths: &'a Vec<(String, String)>, id: &str) -> (r: Option<&'a String>)
    requires
        keys_distinct(paths@),
    ensures
        r is None <==> !pairs_map(paths@).contains_key(id@),
        (r matches Some(p) ==> p@ == pairs_map(paths@)[id@]),
{
    let key = String::from_str(id);
    match find_param(paths, &key) {
        Some(j) => {
            proof {
                lemma_pairs_map_value(paths@, j as int);
            }
            Some(&paths[j].1)
        },
        None => None,
    }
}

impl AssetManager {
    /// Each id has one path.
    pub open spec fn wf(self) -> bool {
        keys_distinct(self.image_paths@) && keys_distinct(self.sound_paths@)
    }

    /// The image paths by id.
    pub open spec fn images(self) -> Map<Seq<char>, Seq<char>> {
        pairs_map(self.image_paths@)
    }

    /// The sound paths by id.
    pub open spec fn sounds(self) -> Map<Seq<char>, Seq<char>> {
        pairs_map(self.sound_paths@)
    }

    /// No paths, nothing loaded.
    pub fn new() -> (r: AssetManager)
        ensures
            r.wf(),
            r.image_paths@.len() == 0,
            r.sound_paths@.len() == 0,
            !r.loaded,
    {
        AssetManager { image_paths: Vec::new(), sound_paths: Vec::new(), loaded: false }
    }

    /// Records `path` as the image `id`, replacing an earlier one.
    pub fn register_image(&mut self, id: String, path: String)
        requires
            old(self).wf(),
        ensures
            final(self).wf(),
            final(self).images() == old(self).images().insert(id@, path@),
            final(self).sound_paths == old(self).sound_paths,
            final(self).loaded == old(self).loaded,
    {
        insert_param(&mut self.image_paths, id, path);
    }

    /// Records `path` as the sound `id`, replacing an earlier one.
    pub fn register_sound(&mut self, id: String, path: String)
        requires
            old(self).wf(),
        ensures
            final(self).wf(),
            final(self).sounds() == old(self).sounds().insert(id@, path@),
            final(self).image_paths == old(self).image_paths,
            final(self).loaded == old(self).loaded,
    {
        insert_param(&mut self.sound_paths, id, path);
    }

    /// The path of the image `id`, if registered.
    pub fn get_image_path(&self, id: &str) -> (r: Option<&String>)
        requires
            self.wf(),
        ensures
            r is None <==> !self.images().contains_key(id@),
            (r matches Some(p) ==> p@ == self.images()[id@]),
    {
        lookup_path(&self.image_paths, id)
    }

    /// The path of the sound `id`, if registered.
    pub fn get_sound_path(&self, id: &str) -> (r: Option<&String>)
        requires
            self.wf(),
        ensures
            r is None <==> !self.sounds().contains_key(id@),
            (r matches Some(p) ==> p@ == self.sounds()[id@]),
    {
        lookup_path(&self.sound_paths, id)
    }
}

impl Default for AssetManager {
    /// The same as `AssetManager::new`.
    fn default() -> (r: Self)
        ensures
            r.wf(),
            r.image_paths@.len() == 0,
            r.sound_paths@.len() == 0,
            !r.loaded,
    {
        AssetManager::new()
    }
}

/// Registering an image id twice keeps the later path: the same as
/// registering only that one.
pub proof fn lemma_register_image_twice(
    a0: AssetManager,
    a1: AssetManager,
    a2: AssetManager,
    id: Seq<char>,
    p1: Seq<char>,
    p2: Seq<char>,
)
    requires
        a1.images() == a0.images().insert(id, p1),
        a2.images() == a1.images().insert(id, p2),
    ensures
        a2.images() == a0.images().insert(id, p2),
        a2.images()[id] == p2,
{
    assert(a2.images() =~= a0.images().insert(id, p2));
}

} // verus!
