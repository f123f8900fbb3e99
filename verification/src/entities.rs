//! The data model: worlds with their provenance and user-owned fields,
//! folders with their ordered member lists, preferences, and the small
//! records the surrounding application exchanges with the store.
//!
//! Timestamps are plain milliseconds since the Unix epoch; their rendering
//! for display goes through the trusted calendar wrappers.

use vstd::prelude::*;

use crate::text::contains_string;
use crate::trusted::rfc3339_millis_of;
use crate::trusted::ymd_of;

verus! {

/// Provenance fields of a world, replaced wholesale on refresh.
pub struct WorldApiData {
    pub image_url: String,
    pub world_name: String,
    pub world_id: String,
    pub author_name: String,
    pub author_id: String,
    pub capacity: i32,
    pub recommended_capacity: Option<i32>,
    pub tags: Vec<String>,
    /// Milliseconds since the epoch, where known.
    pub publication_date: Option<i64>,
    /// Milliseconds since the epoch of the provider's last update.
    pub last_update: i64,
    pub description: String,
    pub visits: Option<i32>,
    pub favorites: i32,
    pub platform: Vec<String>,
}

/// Spec-level image of [`WorldApiData`].
#[verifier::ext_equal]
pub ghost struct WorldApiV {
    pub image_url: Seq<char>,
    pub world_name: Seq<char>,
    pub world_id: Seq<char>,
    pub author_name: Seq<char>,
    pub author_id: Seq<char>,
    pub capacity: i32,
    pub recommended_capacity: Option<i32>,
    pub tags: Seq<Seq<char>>,
    pub publication_date: Option<i64>,
    pub last_update: i64,
    pub description: Seq<char>,
    pub visits: Option<i32>,
    pub favorites: i32,
    pub platform: Seq<Seq<char>>,
}

impl View for WorldApiData {
    type V = WorldApiV;

    open spec fn view(&self) -> WorldApiV {
        WorldApiV {
            image_url: self.image_url@,
            world_name: self.world_name@,
            world_id: self.world_id@,
            author_name: self.author_name@,
            author_id: self.author_id@,
            capacity: self.capacity,
            recommended_capacity: self.recommended_capacity,
            tags: self.tags.deep_view(),
            publication_date: self.publication_date,
            last_update: self.last_update,
            description: self.description@,
            visits: self.visits,
            favorites: self.favorites,
            platform: self.platform.deep_view(),
        }
    }
}

/// User-owned fields of a world.
pub struct WorldUserData {
    /// Milliseconds since the epoch at which the world entered the store.
    pub date_added: i64,
    /// Milliseconds since the epoch of the last provenance fetch.
    pub last_checked: i64,
    pub memo: String,
    /// The "last known folders" ledger, joined to folders by name.
    pub folders: Vec<String>,
    pub hidden: bool,
    pub is_photographed: bool,
    pub is_shared: bool,
    pub is_favorite: bool,
}

/// Spec-level image of [`WorldUserData`].
#[verifier::ext_equal]
pub ghost struct WorldUserV {
    pub date_added: i64,
    pub last_checked: i64,
    pub memo: Seq<char>,
    pub folders: Seq<Seq<char>>,
    pub hidden: bool,
    pub is_photographed: bool,
    pub is_shared: bool,
    pub is_favorite: bool,
}

impl View for WorldUserData {
    type V = WorldUserV;

    open spec fn view(&self) -> WorldUserV {
        WorldUserV {
            date_added: self.date_added,
            last_checked: self.last_checked,
            memo: self.memo@,
            folders: self.folders.deep_view(),
            hidden: self.hidden,
            is_photographed: self.is_photographed,
            is_shared: self.is_shared,
            is_favorite: self.is_favorite,
        }
    }
}

impl WorldUserData {
    /// Whether the provenance is stale at time `now` (milliseconds since
    /// the epoch): true exactly when more than four hours have passed
    /// since the last fetch.
    pub fn needs_update_at(&self, now: i64) -> (r: bool)
        ensures
            r == (now - self.last_checked > crate::REFRESH_THRESHOLD_MILLIS),
    {
        crate::needs_refresh_at(self.last_checked, now)
    }

    /// Whether the provenance is stale now, by the wall clock.
    pub fn needs_update(&self) -> bool {
        let now = crate::trusted::now_millis();
        self.needs_update_at(now)
    }
}

/// One catalog entry: provenance and user-owned fields side by side.
pub struct WorldModel {
    pub api_data: WorldApiData,
    pub user_data: WorldUserData,
}

/// Spec-level image of [`WorldModel`].
#[verifier::ext_equal]
pub ghost struct WorldV {
    pub api_data: WorldApiV,
    pub user_data: WorldUserV,
}

impl View for WorldModel {
    type V = WorldV;

    open spec fn view(&self) -> WorldV {
        WorldV { api_data: self.api_data@, user_data: self.user_data@ }
    }
}

impl WorldModel {
    /// A fresh record for newly observed provenance: empty memo, no
    /// folders, not hidden, all status flags clear. Both timestamps are
    /// read from the wall clock.
    pub fn new(api_data: WorldApiData) -> (r: WorldModel)
        ensures
            r.api_data@ == api_data@,
            r.user_data.memo@ == Seq::<char>::empty(),
            r.user_data.folders@.len() == 0,
            !r.user_data.hidden,
            !r.user_data.is_photographed,
            !r.user_data.is_shared,
            !r.user_data.is_favorite,
    {
        let now = crate::trusted::now_millis();
        WorldModel {
            api_data,
            user_data: WorldUserData {
                date_added: now,
                last_checked: now,
                memo: String::new(),
                folders: Vec::new(),
                hidden: false,
                is_photographed: false,
                is_shared: false,
                is_favorite: false,
            },
        }
    }

    /// The display projection of this record; see [`spec_display_data`]
    /// for what each field holds.
    pub fn to_display_data(&self) -> (r: WorldDisplayData)
        ensures
            r@ == spec_display_data(self@),
    {
        let last_updated = crate::trusted::format_ymd(self.api_data.last_update);
        let date_added = crate::trusted::format_rfc3339_millis(self.user_data.date_added);
        let r = WorldDisplayData {
            world_id: self.api_data.world_id.clone(),
            name: self.api_data.world_name.clone(),
            thumbnail_url: self.api_data.image_url.clone(),
            author_name: self.api_data.author_name.clone(),
            favorites: self.api_data.favorites,
            last_updated,
            visits: match self.api_data.visits {
                Some(v) => v,
                None => 0,
            },
            date_added,
            platform: classify_platform_vec(&self.api_data.platform),
            folders: crate::text::clone_string_vec(&self.user_data.folders),
            tags: crate::text::clone_string_vec(&self.api_data.tags),
            capacity: self.api_data.capacity,
            is_photographed: self.user_data.is_photographed,
            is_shared: self.user_data.is_shared,
            is_favorite: self.user_data.is_favorite,
        };
        proof {
            assert(r@ =~~= spec_display_data(self@));
        }
        r
    }
}

/// Which platforms a world was published for, as the display layer groups
/// them.
#[derive(Clone, Copy, Debug, PartialEq, Eq, Structural)]
pub enum Platform {
    PC,
    Quest,
    CrossPlatform,
}

/// The platform group of a world's platform list: both the desktop and the
/// standalone tag make it cross-platform, the standalone tag alone makes
/// it Quest, anything else counts as PC.
pub open spec fn spec_classify_platform(platform: Seq<Seq<char>>) -> Platform {
    if platform.contains("standalonewindows"@) && platform.contains("android"@) {
        Platform::CrossPlatform
    } else if platform.contains("android"@) {
        Platform::Quest
    } else {
        Platform::PC
    }
}

/// Classifies a platform list; see [`spec_classify_platform`].
pub fn classify_platform_vec(platform: &Vec<String>) -> (r: Platform)
    ensures
        r == spec_classify_platform(platform.deep_view()),
{
    let windows = crate::text::vec_contains_string(platform, &String::from_str("standalonewindows"));
    let android = crate::text::vec_contains_string(platform, &String::from_str("android"));
    proof {
        lemma_contains_string_deep_view(*platform, "standalonewindows"@);
        lemma_contains_string_deep_view(*platform, "android"@);
    }
    if windows && android {
        Platform::CrossPlatform
    } else if android {
        Platform::Quest
    } else {
        Platform::PC
    }
}

/// `contains_string` over a vector of strings agrees with `Seq::contains`
/// over its deep view.
pub proof fn lemma_contains_string_deep_view(v: Vec<String>, t: Seq<char>)
    ensures
        contains_string(v@, t) == v.deep_view().contains(t),
{
    let m = v.deep_view();
    assert(forall|i: int| 0 <= i < v@.len() ==> #[trigger] m[i] == v@[i]@);
    if contains_string(v@, t) {
        let i = choose|i: int| 0 <= i < v@.len() && #[trigger] v@[i]@ == t;
        assert(m[i] == t);
    }
    if m.contains(t) {
        let i = choose|i: int| 0 <= i < m.len() && m[i] == t;
        assert(v@[i]@ == t);
    }
}

/// What the display layer shows of one world.
pub struct WorldDisplayData {
    pub world_id: String,
    pub name: String,
    pub thumbnail_url: String,
    pub author_name: String,
    pub favorites: i32,
    /// `YYYY-MM-DD` rendering of the provider's last update.
    pub last_updated: String,
    pub visits: i32,
    /// RFC 3339 rendering (millisecond precision) of the date added.
    pub date_added: String,
    pub platform: Platform,
    pub folders: Vec<String>,
    pub tags: Vec<String>,
    pub capacity: i32,
    pub is_photographed: bool,
    pub is_shared: bool,
    pub is_favorite: bool,
}

/// Spec-level image of [`WorldDisplayData`].
#[verifier::ext_equal]
pub ghost struct WorldDisplayV {
    pub world_id: Seq<char>,
    pub name: Seq<char>,
    pub thumbnail_url: Seq<char>,
    pub author_name: Seq<char>,
    pub favorites: i32,
    pub last_updated: Seq<char>,
    pub visits: i32,
    pub date_added: Seq<char>,
    pub platform: Platform,
    pub folders: Seq<Seq<char>>,
    pub tags: Seq<Seq<char>>,
    pub capacity: i32,
    pub is_photographed: bool,
    pub is_shared: bool,
    pub is_favorite: bool,
}

impl View for WorldDisplayData {
    type V = WorldDisplayV;

    open spec fn view(&self) -> WorldDisplayV {
        WorldDisplayV {
            world_id: self.world_id@,
            name: self.name@,
            thumbnail_url: self.thumbnail_url@,
            author_name: self.author_name@,
            favorites: self.favorites,
            last_updated: self.last_updated@,
            visits: self.visits,
            date_added: self.date_added@,
            platform: self.platform,
            folders: self.folders.deep_view(),
            tags: self.tags.deep_view(),
            capacity: self.capacity,
            is_photographed: self.is_photographed,
            is_shared: self.is_shared,
            is_favorite: self.is_favorite,
        }
    }
}

/// The display projection of a world record. The two date fields render
/// through the trusted calendar wrappers.
pub open spec fn spec_display_data(w: WorldV) -> WorldDisplayV {
    WorldDisplayV {
        world_id: w.api_data.world_id,
        name: w.api_data.world_name,
        thumbnail_url: w.api_data.image_url,
        author_name: w.api_data.author_name,
        favorites: w.api_data.favorites,
        last_updated: ymd_of(w.api_data.last_update),
        visits: match w.api_data.visits {
            Some(v) => v,
            None => 0,
        },
        date_added: rfc3339_millis_of(w.user_data.date_added),
        platform: spec_classify_platform(w.api_data.platform),
        folders: w.user_data.folders,
        tags: w.api_data.tags,
        capacity: w.api_data.capacity,
        is_photographed: w.user_data.is_photographed,
        is_shared: w.user_data.is_shared,
        is_favorite: w.user_data.is_favorite,
    }
}

/// Sharing handle of a folder, with its expiry instant.
pub struct ShareInfo {
    pub id: String,
    /// Milliseconds since the epoch at which the handle lapses.
    pub expiry_time: i64,
}

/// Spec-level image of [`ShareInfo`].
#[verifier::ext_equal]
pub ghost struct ShareInfoV {
    pub id: Seq<char>,
    pub expiry_time: i64,
}

impl View for ShareInfo {
    type V = ShareInfoV;

    open spec fn view(&self) -> ShareInfoV {
        ShareInfoV { id: self.id@, expiry_time: self.expiry_time }
    }
}

/// A named, ordered bucket of worlds.
pub struct FolderModel {
    pub folder_name: String,
    /// The authoritative live membership, in display order.
    pub world_ids: Vec<String>,
    pub share: Option<ShareInfo>,
    pub color: Option<String>,
}

/// Spec-level image of [`FolderModel`].
#[verifier::ext_equal]
pub ghost struct FolderV {
    pub folder_name: Seq<char>,
    pub world_ids: Seq<Seq<char>>,
    pub share: Option<ShareInfoV>,
    pub color: Option<Seq<char>>,
}

impl View for FolderModel {
    type V = FolderV;

    open spec fn view(&self) -> FolderV {
        FolderV {
            folder_name: self.folder_name@,
            world_ids: self.world_ids.deep_view(),
            share: match self.share {
                Some(ref s) => Some(s@),
                None => None,
            },
            color: match self.color {
                Some(ref c) => Some(c@),
                None => None,
            },
        }
    }
}

impl FolderModel {
    /// An empty folder with the given name: no members, no share handle,
    /// no color.
    pub fn new(folder_name: String) -> (r: FolderModel)
        ensures
            r@ == (FolderV {
                folder_name: folder_name@,
                world_ids: Seq::<Seq<char>>::empty(),
                share: None,
                color: None,
            }),
    {
        let r = FolderModel { folder_name, world_ids: Vec::new(), share: None, color: None };
        proof {
            assert(r.world_ids.deep_view() =~= Seq::<Seq<char>>::empty());
        }
        r
    }
}

/// How large the display cards render.
#[derive(Clone, Copy, Debug, PartialEq, Eq, Structural)]
pub enum CardSize {
    Compact,
    Normal,
    Expanded,
    Original,
}

/// The starred entries of the filter item selector, one list per facet.
pub struct FilterItemSelectorStarred {
    pub author: Vec<String>,
    pub tag: Vec<String>,
    pub exclude_tag: Vec<String>,
    pub folder: Vec<String>,
}

/// Which facet of the starred filter selector a call addresses.
#[derive(Clone, Copy, Debug, PartialEq, Eq, Structural)]
pub enum FilterItemSelectorStarredType {
    Author,
    Tag,
    ExcludeTag,
    Folder,
}

/// What to do when a world is added to a folder while sitting in another.
#[derive(Clone, Copy, Debug, PartialEq, Eq, Structural)]
pub enum FolderRemovalPreference {
    Ask,
    AlwaysRemove,
    NeverRemove,
}

/// The instance kind new instances default to.
#[derive(Clone, Copy, Debug, PartialEq, Eq, Structural)]
pub enum DefaultInstanceType {
    Public,
    Group,
    FriendsPlus,
    Friends,
    InvitePlus,
    Invite,
}

impl Default for DefaultInstanceType {
    /// The default instance kind is public.
    fn default() -> (r: Self)
        ensures
            r == DefaultInstanceType::Public,
    {
        DefaultInstanceType::Public
    }
}

/// Which status buttons the world cards show.
#[derive(Clone, Copy, Debug, PartialEq, Eq, Structural)]
pub struct VisibleButtons {
    pub favorite: bool,
    pub photographed: bool,
    pub shared: bool,
}

impl Default for VisibleButtons {
    /// All three buttons show by default.
    fn default() -> (r: Self)
        ensures
            r == (VisibleButtons { favorite: true, photographed: true, shared: true }),
    {
        VisibleButtons { favorite: true, photographed: true, shared: true }
    }
}

/// The default visible-button set; see [`VisibleButtons::default`].
pub fn default_visible_buttons() -> (r: VisibleButtons)
    ensures
        r == (VisibleButtons { favorite: true, photographed: true, shared: true }),
{
    VisibleButtons::default()
}

/// The default sort field for the world list.
pub fn default_sort_field() -> (r: String)
    ensures
        r@ == "dateAdded"@,
{
    String::from_str("dateAdded")
}

/// The default sort direction for the world list.
pub fn default_sort_direction() -> (r: String)
    ensures
        r@ == "desc"@,
{
    String::from_str("desc")
}

/// The default folder-removal preference: ask the user.
pub fn default_folder_removal() -> (r: FolderRemovalPreference)
    ensures
        r == FolderRemovalPreference::Ask,
{
    FolderRemovalPreference::Ask
}

/// The default instance region.
pub fn default_region() -> (r: crate::api::instance::InstanceRegion)
    ensures
        r == crate::api::instance::InstanceRegion::JP,
{
    crate::api::instance::InstanceRegion::JP
}

/// The platform list assumed of records that predate platform tracking.
pub fn default_platform() -> (r: Option<Vec<String>>)
    ensures
        r matches Some(v) && v.deep_view() == seq!["pc"@],
{
    let mut v: Vec<String> = Vec::new();
    v.push(String::from_str("pc"));
    proof {
        assert(v.deep_view() =~= seq!["pc"@]);
    }
    Some(v)
}

/// The memo assumed of records that predate memos.
pub fn default_user_memo() -> (r: Option<String>)
    ensures
        r matches Some(s) && s@ == Seq::<char>::empty(),
{
    Some(String::new())
}

/// User preferences, persisted between runs.
pub struct PreferenceModel {
    pub first_time: bool,
    pub theme: String,
    pub language: String,
    pub card_size: CardSize,
    pub region: crate::api::instance::InstanceRegion,
    pub filter_item_selector_starred: Option<FilterItemSelectorStarred>,
    pub dont_show_remove_from_folder: FolderRemovalPreference,
    pub update_channel: UpdateChannel,
    pub sort_field: String,
    pub sort_direction: String,
    pub default_instance_type: DefaultInstanceType,
    pub visible_buttons: VisibleButtons,
}

impl PreferenceModel {
    /// First-run preferences: light theme, English, normal cards, the JP
    /// region, no starred filters, ask before folder removal, stable
    /// updates, newest-first by date added, public instances, all buttons.
    pub fn new() -> (r: Self)
        ensures
            r.first_time,
            r.theme@ == "light"@,
            r.language@ == "en"@,
            r.card_size == CardSize::Normal,
            r.region == crate::api::instance::InstanceRegion::JP,
            r.filter_item_selector_starred is None,
            r.dont_show_remove_from_folder == FolderRemovalPreference::Ask,
            r.update_channel == UpdateChannel::Stable,
            r.sort_field@ == "dateAdded"@,
            r.sort_direction@ == "desc"@,
            r.default_instance_type == DefaultInstanceType::Public,
            r.visible_buttons == (VisibleButtons { favorite: true, photographed: true, shared: true }),
    {
        PreferenceModel {
            first_time: true,
            theme: String::from_str("light"),
            language: String::from_str("en"),
            card_size: CardSize::Normal,
            region: crate::api::instance::InstanceRegion::JP,
            filter_item_selector_starred: None,
            dont_show_remove_from_folder: FolderRemovalPreference::Ask,
            update_channel: UpdateChannel::Stable,
            sort_field: String::from_str("dateAdded"),
            sort_direction: String::from_str("desc"),
            default_instance_type: DefaultInstanceType::Public,
            visible_buttons: VisibleButtons::default(),
        }
    }
}

/// Marks the initial setup as completed and records the choices made
/// there: theme, language and card size.
pub fn set_preferences(
    preferences: &mut PreferenceModel,
    theme: String,
    language: String,
    card_size: CardSize,
)
    ensures
        final(preferences).theme@ == theme@,
        final(preferences).language@ == language@,
        final(preferences).card_size == card_size,
        !final(preferences).first_time,
        final(preferences).region == old(preferences).region,
        final(preferences).filter_item_selector_starred == old(
            preferences,
        ).filter_item_selector_starred,
        final(preferences).dont_show_remove_from_folder == old(
            preferences,
        ).dont_show_remove_from_folder,
        final(preferences).update_channel == old(preferences).update_channel,
        final(preferences).sort_field == old(preferences).sort_field,
        final(preferences).sort_direction == old(preferences).sort_direction,
        final(preferences).default_instance_type == old(preferences).default_instance_type,
        final(preferences).visible_buttons == old(preferences).visible_buttons,
{
    preferences.theme = theme;
    preferences.language = language;
    preferences.card_size = card_size;
    preferences.first_time = false;
}

/// Which release line updates come from.
#[derive(Clone, Copy, Debug, PartialEq, Eq, Structural)]
pub enum UpdateChannel {
    Stable,
    PreRelease,
}

impl UpdateChannel {
    /// The channel's wire name.
    pub fn as_str(&self) -> (r: &'static str)
        ensures
            self is Stable ==> r@ == "stable"@,
            self is PreRelease ==> r@ == "pre-release"@,
    {
        match self {
            UpdateChannel::Stable => "stable",
            UpdateChannel::PreRelease => "pre-release",
        }
    }
}

/// The default update channel: stable.
pub fn default_update_channel() -> (r: UpdateChannel)
    ensures
        r == UpdateChannel::Stable,
{
    UpdateChannel::Stable
}

/// The session cookies the remote catalog hands out, with the format
/// version under which they were stored (0 plaintext, 1 encrypted).
pub struct AuthCookies {
    pub two_factor_auth: Option<String>,
    pub auth_token: Option<String>,
    pub version: u8,
}

impl AuthCookies {
    /// An empty session at the current storage version.
    pub fn new() -> (r: Self)
        ensures
            r.two_factor_auth is None,
            r.auth_token is None,
            r.version == 1,
    {
        AuthCookies { two_factor_auth: None, auth_token: None, version: 1 }
    }
}

/// Outcome of application startup, handed to the display layer.
pub struct InitState {
    pub success: bool,
    pub message: String,
    pub user_id: String,
}

impl InitState {
    /// A successful startup, with nothing to report.
    pub fn success() -> (r: Self)
        ensures
            r.success,
            r.message@ == Seq::<char>::empty(),
            r.user_id@ == Seq::<char>::empty(),
    {
        InitState { success: true, message: String::new(), user_id: String::new() }
    }

    /// A failed startup carrying its report.
    pub fn error(message: String) -> (r: Self)
        ensures
            !r.success,
            r.message@ == message@,
            r.user_id@ == Seq::<char>::empty(),
    {
        InitState { success: false, message, user_id: String::new() }
    }
}

/// Identifiers of worlds the remote catalog refuses to serve.
pub struct WorldBlacklist {
    pub worlds: Vec<String>,
}

/// Supporter names by tier, as fetched from the project's own service.
pub struct PatreonData {
    pub platinum_supporter: Vec<String>,
    pub gold_supporter: Vec<String>,
    pub silver_supporter: Vec<String>,
    pub bronze_supporter: Vec<String>,
    pub basic_supporter: Vec<String>,
}

/// Supporter catalog names by tier.
pub struct PatreonVRChatNames {
    pub platinum_supporter: Vec<String>,
    pub gold_supporter: Vec<String>,
    pub silver_supporter: Vec<String>,
    pub bronze_supporter: Vec<String>,
    pub basic_supporter: Vec<String>,
}

/// What one exported backup holds, as recorded beside it.
pub struct BackupMetaData {
    pub date: String,
    pub number_of_folders: u32,
    pub number_of_worlds: u32,
    pub app_version: String,
}

/// Counts found in a previous installation's data, shown before import.
pub struct PreviousMetadata {
    pub number_of_folders: u32,
    pub number_of_worlds: u32,
}

} // verus!
