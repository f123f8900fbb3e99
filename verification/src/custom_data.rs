//! The side-channel override store: status flags and folder colors kept
//! out of the primary files so an older reader can still open those, plus
//! the extended preferences that travel with them.

use vstd::prelude::*;

use crate::entities::DefaultInstanceType;
use crate::kv::keys_unique;
use crate::kv::spec_lookup;

verus! {

/// The current version of the override store's format.
pub fn default_version() -> (r: u32)
    ensures
        r == 1,
{
    1
}

/// Extended preferences stored beside the overrides.
pub struct CustomPreferences {
    pub default_instance_type: DefaultInstanceType,
}

impl Default for CustomPreferences {
    /// Extended preferences default to public instances.
    fn default() -> (r: Self)
        ensures
            r.default_instance_type == DefaultInstanceType::Public,
    {
        CustomPreferences { default_instance_type: DefaultInstanceType::Public }
    }
}

/// App-specific overrides, keyed by world identifier or folder name.
pub struct CustomData {
    /// Version of the format, for future migrations.
    pub version: u32,
    /// World identifier to favorite flag.
    pub world_favorites: Vec<(String, bool)>,
    /// World identifier to photographed flag.
    pub world_photographed: Vec<(String, bool)>,
    /// World identifier to shared flag.
    pub world_shared: Vec<(String, bool)>,
    /// Folder name to color (hex text such as "#a855f7").
    pub folder_colors: Vec<(String, String)>,
    /// Extended preferences.
    pub preferences: CustomPreferences,
}

impl CustomData {
    /// All four maps keep their keys unique.
    pub open spec fn wf(&self) -> bool {
        keys_unique(self.world_favorites@) && keys_unique(self.world_photographed@)
            && keys_unique(self.world_shared@) && keys_unique(self.folder_colors@)
    }

    /// Whether a flag map marks an identifier.
    pub open spec fn spec_flag(m: Seq<(String, bool)>, id: Seq<char>) -> bool {
        spec_lookup(m, id) == Some(true)
    }

    /// An empty override store at the current format version.
    pub fn new() -> (r: Self)
        ensures
            r.wf(),
            r.version == 1,
            r.world_favorites@.len() == 0,
            r.world_photographed@.len() == 0,
            r.world_shared@.len() == 0,
            r.folder_colors@.len() == 0,
            r.preferences.default_instance_type == DefaultInstanceType::Public,
    {
        CustomData {
            version: 1,
            world_favorites: Vec::new(),
            world_photographed: Vec::new(),
            world_shared: Vec::new(),
            folder_colors: Vec::new(),
            preferences: CustomPreferences::default(),
        }
    }

    /// Marks or unmarks a world as favorite: marking stores `true` under
    /// the identifier, unmarking removes the entry outright (`false` is
    /// never stored, so an older reader of the file sees only marks).
    /// Other worlds' flags stay as they were.
    pub fn set_world_favorite(&mut self, world_id: &str, is_favorite: bool)
        requires
            old(self).wf(),
        ensures
            final(self).wf(),
            Self::spec_flag(final(self).world_favorites@, world_id@) == is_favorite,
            is_favorite ==> spec_lookup(final(self).world_favorites@, world_id@) == Some(true),
            !is_favorite ==> spec_lookup(final(self).world_favorites@, world_id@) is None,
            forall|k: Seq<char>|
                k != world_id@ ==> spec_lookup(final(self).world_favorites@, k) == spec_lookup(
                    old(self).world_favorites@,
                    k,
                ),
            final(self).world_photographed == old(self).world_photographed,
            final(self).world_shared == old(self).world_shared,
            final(self).folder_colors == old(self).folder_colors,
            final(self).version == old(self).version,
            final(self).preferences == old(self).preferences,
    {
        if is_favorite {
            crate::kv::insert_value(&mut self.world_favorites, world_id.to_owned(), true);
        } else {
            crate::kv::remove_key(&mut self.world_favorites, &world_id.to_owned());
        }
    }

    /// Whether a world is marked favorite.
    pub fn is_world_favorite(&self, world_id: &str) -> (r: bool)
        requires
            self.wf(),
        ensures
            r == Self::spec_flag(self.world_favorites@, world_id@),
    {
        match crate::kv::find_key(&self.world_favorites, &world_id.to_owned()) {
            Some(i) => self.world_favorites[i].1,
            None => false,
        }
    }

    /// Marks or unmarks a world as photographed, as
    /// [`Self::set_world_favorite`] does for favorites.
    pub fn set_world_photographed(&mut self, world_id: &str, is_photographed: bool)
        requires
            old(self).wf(),
        ensures
            final(self).wf(),
            Self::spec_flag(final(self).world_photographed@, world_id@) == is_photographed,
            is_photographed ==> spec_lookup(final(self).world_photographed@, world_id@) == Some(true),
            !is_photographed ==> spec_lookup(final(self).world_photographed@, world_id@) is None,
            forall|k: Seq<char>|
                k != world_id@ ==> spec_lookup(final(self).world_photographed@, k) == spec_lookup(
                    old(self).world_photographed@,
                    k,
                ),
            final(self).world_favorites == old(self).world_favorites,
            final(self).world_shared == old(self).world_shared,
            final(self).folder_colors == old(self).folder_colors,
            final(self).version == old(self).version,
            final(self).preferences == old(self).preferences,
    {
        if is_photographed {
            crate::kv::insert_value(&mut self.world_photographed, world_id.to_owned(), true);
        } else {
            crate::kv::remove_key(&mut self.world_photographed, &world_id.to_owned());
        }
    }

    /// Whether a world is marked photographed.
    pub fn is_world_photographed(&self, world_id: &str) -> (r: bool)
        requires
            self.wf(),
        ensures
            r == Self::spec_flag(self.world_photographed@, world_id@),
    {
        match crate::kv::find_key(&self.world_photographed, &world_id.to_owned()) {
            Some(i) => self.world_photographed[i].1,
            None => false,
        }
    }

    /// Marks or unmarks a world as shared, as [`Self::set_world_favorite`]
    /// does for favorites.
    pub fn set_world_shared(&mut self, world_id: &str, is_shared: bool)
        requires
            old(self).wf(),
        ensures
            final(self).wf(),
            Self::spec_flag(final(self).world_shared@, world_id@) == is_shared,
            is_shared ==> spec_lookup(final(self).world_shared@, world_id@) == Some(true),
            !is_shared ==> spec_lookup(final(self).world_shared@, world_id@) is None,
            forall|k: Seq<char>|
                k != world_id@ ==> spec_lookup(final(self).world_shared@, k) == spec_lookup(
                    old(self).world_shared@,
                    k,
                ),
            final(self).world_favorites == old(self).world_favorites,
            final(self).world_photographed == old(self).world_photographed,
            final(self).folder_colors == old(self).folder_colors,
            final(self).version == old(self).version,
            final(self).preferences == old(self).preferences,
    {
        if is_shared {
            crate::kv::insert_value(&mut self.world_shared, world_id.to_owned(), true);
        } else {
            crate::kv::remove_key(&mut self.world_shared, &world_id.to_owned());
        }
    }

    /// Whether a world is marked shared.
    pub fn is_world_shared(&self, world_id: &str) -> (r: bool)
        requires
            self.wf(),
        ensures
            r == Self::spec_flag(self.world_shared@, world_id@),
    {
        match crate::kv::find_key(&self.world_shared, &world_id.to_owned()) {
            Some(i) => self.world_shared[i].1,
            None => false,
        }
    }

    /// Sets or clears a folder's color. Other folders' colors stay as
    /// they were.
    pub fn set_folder_color(&mut self, folder_name: &str, color: Option<&str>)
        requires
            old(self).wf(),
        ensures
            final(self).wf(),
            (match color {
                Some(c) => spec_lookup(final(self).folder_colors@, folder_name@) matches Some(s)
                    && s@ == c@,
                None => spec_lookup(final(self).folder_colors@, folder_name@) is None,
            }),
            forall|k: Seq<char>|
                k != folder_name@ ==> spec_lookup_color(final(self).folder_colors@, k)
                    == spec_lookup_color(old(self).folder_colors@, k),
            final(self).world_favorites == old(self).world_favorites,
            final(self).world_photographed == old(self).world_photographed,
            final(self).world_shared == old(self).world_shared,
            final(self).version == old(self).version,
            final(self).preferences == old(self).preferences,
    {
        match color {
            Some(c) => {
                crate::kv::insert_value(&mut self.folder_colors, folder_name.to_owned(), c.to_owned());
                proof {
                    lemma_lookup_color_agrees(old(self).folder_colors@, self.folder_colors@, folder_name@, folder_name@);
                }
            },
            None => {
                crate::kv::remove_key(&mut self.folder_colors, &folder_name.to_owned());
                proof {
                    lemma_lookup_color_agrees(old(self).folder_colors@, self.folder_colors@, folder_name@, folder_name@);
                }
            },
        }
    }

    /// The color stored for a folder, if any.
    pub fn get_folder_color(&self, folder_name: &str) -> (r: Option<&String>)
        requires
            self.wf(),
        ensures
            (match r {
                Some(c) => spec_lookup(self.folder_colors@, folder_name@) == Some(*c),
                None => spec_lookup(self.folder_colors@, folder_name@) is None,
            }),
    {
        match crate::kv::find_key(&self.folder_colors, &folder_name.to_owned()) {
            Some(i) => Some(&self.folder_colors[i].1),
            None => None,
        }
    }

    /// Moves a folder's color entry to the folder's new name (used when a
    /// folder is renamed). The new name takes the old name's color, the
    /// old name's entry goes away, and a color the new name already held
    /// is replaced. Without a stored color nothing changes.
    pub fn rename_folder(&mut self, old_name: &str, new_name: &str)
        requires
            old(self).wf(),
        ensures
            final(self).wf(),
            spec_lookup_color(final(self).folder_colors@, new_name@) == (
            if old_name@ == new_name@ {
                spec_lookup_color(old(self).folder_colors@, old_name@)
            } else if spec_lookup(old(self).folder_colors@, old_name@) is Some {
                spec_lookup_color(old(self).folder_colors@, old_name@)
            } else {
                spec_lookup_color(old(self).folder_colors@, new_name@)
            }),
            old_name@ != new_name@ ==> spec_lookup(final(self).folder_colors@, old_name@) is None,
            forall|k: Seq<char>|
                k != old_name@ && k != new_name@ ==> spec_lookup_color(final(self).folder_colors@, k)
                    == spec_lookup_color(old(self).folder_colors@, k),
            final(self).world_favorites == old(self).world_favorites,
            final(self).world_photographed == old(self).world_photographed,
            final(self).world_shared == old(self).world_shared,
            final(self).version == old(self).version,
            final(self).preferences == old(self).preferences,
    {
        let removed = crate::kv::remove_key(&mut self.folder_colors, &old_name.to_owned());
        if let Some(color) = removed {
            crate::kv::insert_value(&mut self.folder_colors, new_name.to_owned(), color);
        }
        proof {
            lemma_lookup_color_agrees(old(self).folder_colors@, self.folder_colors@, old_name@, new_name@);
        }
    }

    /// Drops a folder's color entry (used when a folder is deleted).
    pub fn remove_folder(&mut self, folder_name: &str)
        requires
            old(self).wf(),
        ensures
            final(self).wf(),
            spec_lookup(final(self).folder_colors@, folder_name@) is None,
            forall|k: Seq<char>|
                k != folder_name@ ==> spec_lookup_color(final(self).folder_colors@, k)
                    == spec_lookup_color(old(self).folder_colors@, k),
            final(self).world_favorites == old(self).world_favorites,
            final(self).world_photographed == old(self).world_photographed,
            final(self).world_shared == old(self).world_shared,
            final(self).version == old(self).version,
            final(self).preferences == old(self).preferences,
    {
        crate::kv::remove_key(&mut self.folder_colors, &folder_name.to_owned());
        proof {
            lemma_lookup_color_agrees(old(self).folder_colors@, self.folder_colors@, folder_name@, folder_name@);
        }
    }
}

/// The color stored under a folder name, read as text (colors are compared
/// by what they read as, not by which allocation holds them).
pub open spec fn spec_lookup_color(m: Seq<(String, String)>, key: Seq<char>) -> Option<Seq<char>> {
    match spec_lookup(m, key) {
        Some(c) => Some(c@),
        None => None,
    }
}

/// Lists whose lookups agree on every key other than the touched ones
/// also agree there on the colors read.
proof fn lemma_lookup_color_agrees(
    pre: Seq<(String, String)>,
    post: Seq<(String, String)>,
    touched_a: Seq<char>,
    touched_b: Seq<char>,
)
    requires
        forall|k: Seq<char>|
            k != touched_a && k != touched_b ==> spec_lookup(post, k) == spec_lookup(pre, k),
    ensures
        forall|k: Seq<char>|
            k != touched_a && k != touched_b ==> spec_lookup_color(post, k) == spec_lookup_color(
                pre,
                k,
            ),
{
}

} // verus!
