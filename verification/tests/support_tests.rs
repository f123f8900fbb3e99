//! Memos, the override store, text utilities, and the remote-catalog
//! record helpers.
use worlds_store::api::group::permission_info_from_details;
use worlds_store::api::group::GroupDetails;
use worlds_store::api::group::GroupInstanceCreatePermission;
use worlds_store::api::group::GroupMyMember;
use worlds_store::api::group::GroupPermission;
use worlds_store::api::instance::CreateInstanceRequestBuilder;
use worlds_store::api::instance::InstanceRegion;
use worlds_store::api::instance::InstanceType;
use worlds_store::api::world::FavoriteWorld;
use worlds_store::api::world::ReleaseStatus;
use worlds_store::api::world::SearchWorldSort;
use worlds_store::api::world::UnityPackage;
use worlds_store::api::world::WorldSearchParametersBuilder;
use worlds_store::custom_data::CustomData;
use worlds_store::entities::CardSize;
use worlds_store::memo::MemoManager;

#[test]
fn test_memo_set_get_search() {
    let mut memos = MemoManager::new();
    assert_eq!(memos.get_memo("w1"), None);
    memos.set_memo("w1", "A quiet TRAIN world");
    memos.set_memo("w2", "nothing here");
    assert_eq!(memos.get_memo("w1"), Some("A quiet TRAIN world"));
    memos.set_memo("w1", "replaced");
    assert_eq!(memos.get_memo("w1"), Some("replaced"));

    memos.set_memo("w3", "another Train stop");
    let hits = memos.search_memo_text("train");
    assert_eq!(hits, vec!["w3".to_string()]);
    let hits = memos.search_memo_text("");
    assert_eq!(hits.len(), 3);
}

#[test]
fn test_custom_data_favorites() {
    let mut cd = CustomData::new();
    assert!(!cd.is_world_favorite("w1"));
    cd.set_world_favorite("w1", true);
    assert!(cd.is_world_favorite("w1"));
    assert!(!cd.is_world_favorite("w2"));
    cd.set_world_favorite("w1", false);
    assert!(!cd.is_world_favorite("w1"));
}

#[test]
fn test_custom_data_colors() {
    let mut cd = CustomData::new();
    assert_eq!(cd.get_folder_color("Trips"), None);
    cd.set_folder_color("Trips", Some("#a855f7"));
    assert_eq!(cd.get_folder_color("Trips"), Some(&"#a855f7".to_string()));
    cd.rename_folder("Trips", "Journeys");
    assert_eq!(cd.get_folder_color("Trips"), None);
    assert_eq!(cd.get_folder_color("Journeys"), Some(&"#a855f7".to_string()));
    cd.remove_folder("Journeys");
    assert_eq!(cd.get_folder_color("Journeys"), None);
}

#[test]
fn test_search_sort_from_str() {
    assert_eq!(SearchWorldSort::from_str("popularity"), Some(SearchWorldSort::Popularity));
    assert_eq!(SearchWorldSort::from_str("relevance"), Some(SearchWorldSort::Relevance));
    assert_eq!(SearchWorldSort::from_str("shuffle"), None);
    assert_eq!(SearchWorldSort::Popularity.as_str(), "popularity");
    assert_eq!(SearchWorldSort::CreatedAt.as_str(), "_created_at");
}

#[test]
fn test_search_query_string() {
    let params = WorldSearchParametersBuilder::new()
        .sort(SearchWorldSort::Popularity)
        .tag("author_tag cute")
        .search("space station")
        .build();
    assert_eq!(
        params.to_query_string(),
        "sort=popularity&tag=author_tag%20cute&search=space%20station"
    );
    let empty = WorldSearchParametersBuilder::new().build();
    assert_eq!(empty.to_query_string(), "");
}

#[test]
fn test_group_permission_decision() {

    let details = GroupDetails {
        id: "grp".to_string(),
        name: "G".to_string(),
        icon_url: None,
        banner_url: None,
        my_member: Some(GroupMyMember {
            id: "m".to_string(),
            group_id: "grp".to_string(),
            user_id: "u".to_string(),
            role_ids: vec![],
            permissions: vec![
                GroupPermission::GroupInstanceJoin,
                GroupPermission::GroupInstancePlusCreate,
            ],
        }),
        roles: vec![],
    };
    let info = permission_info_from_details(details);
    assert_eq!(info.permission, GroupInstanceCreatePermission::partial(false, true, false, false));

    let no_member = GroupDetails {
        id: "grp".to_string(),
        name: "G".to_string(),
        icon_url: None,
        banner_url: None,
        my_member: None,
        roles: vec![],
    };
    let info = permission_info_from_details(no_member);
    assert_eq!(info.permission, GroupInstanceCreatePermission::none());
}

#[test]
fn test_create_instance_request() {
    let request = CreateInstanceRequestBuilder::new(
        InstanceType::friends_plus("usr_1"),
        "wrld_1".to_string(),
        InstanceRegion::JP,
        true,
    )
    .build();
    assert_eq!(request.instance_type, "hidden");
    assert_eq!(request.owner_id, Some("usr_1".to_string()));
    assert_eq!(request.group_access_type, "members");
    assert!(!request.can_request_invite);
    assert!(request.queue_enabled);
}

#[test]
fn test_favorite_world_conversion() {
    let fav = FavoriteWorld {
        author_id: "usr_a".to_string(),
        author_name: "A".to_string(),
        capacity: 16,
        description: "d".to_string(),
        recommended_capacity: Some(0),
        created_at: "2024-01-01T00:00:00Z".to_string(),
        favorites: 5,
        favorite_group: "worlds1".to_string(),
        visits: Some(10),
        id: "wrld_f".to_string(),
        image_url: "img".to_string(),
        name: "Fav".to_string(),
        publication_date: "none".to_string(),
        release_status: ReleaseStatus::Public,
        tags: vec![],
        thumbnail_image_url: "t".to_string(),
        unity_packages: vec![
            UnityPackage { platform: "standalonewindows".to_string() },
            UnityPackage { platform: "standalonewindows".to_string() },
            UnityPackage { platform: "android".to_string() },
        ],
        updated_at: "2024-01-01T00:00:00Z".to_string(),
        version: 1,
    };
    let api = fav.to_api_data().unwrap();
    assert_eq!(api.world_id, "wrld_f");
    assert_eq!(api.publication_date, None);
    assert_eq!(api.last_update, 1704067200000);
    assert_eq!(api.recommended_capacity, None);
    assert_eq!(api.platform, vec!["standalonewindows".to_string(), "android".to_string()]);

    let bad = FavoriteWorld {
        author_id: "usr_a".to_string(),
        author_name: "A".to_string(),
        capacity: 16,
        description: "d".to_string(),
        recommended_capacity: None,
        created_at: "".to_string(),
        favorites: 0,
        favorite_group: "".to_string(),
        visits: None,
        id: "wrld_g".to_string(),
        image_url: "".to_string(),
        name: "Bad".to_string(),
        publication_date: "none".to_string(),
        release_status: ReleaseStatus::Public,
        tags: vec![],
        thumbnail_image_url: "".to_string(),
        unity_packages: vec![],
        updated_at: "yesterday".to_string(),
        version: 1,
    };
    assert!(bad.to_api_data().is_err());
}

#[test]
fn test_needs_refresh_boundaries() {
    // Staleness begins strictly after four hours: at exactly four hours
    // the record is still fresh, a millisecond later it is not.
    assert!(!worlds_store::needs_refresh_at(0, worlds_store::REFRESH_THRESHOLD_MILLIS));
    assert!(worlds_store::needs_refresh_at(0, worlds_store::REFRESH_THRESHOLD_MILLIS + 1));
    // A fetch stamped in the future is never stale.
    assert!(!worlds_store::needs_refresh_at(100, 0));
}

#[test]
fn test_set_preferences_marks_setup_done() {
    let mut prefs = worlds_store::entities::PreferenceModel::new();
    assert!(prefs.first_time);
    worlds_store::entities::set_preferences(
        &mut prefs,
        "dark".to_string(),
        "ja".to_string(),
        CardSize::Compact,
    );
    assert!(!prefs.first_time);
    assert_eq!(prefs.theme, "dark");
    assert_eq!(prefs.language, "ja");
}

#[test]
fn test_patreon_tiers_hold_names() {
    let names = worlds_store::entities::PatreonVRChatNames {
        platinum_supporter: vec!["p".to_string()],
        gold_supporter: vec![],
        silver_supporter: vec![],
        bronze_supporter: vec![],
        basic_supporter: vec![],
    };
    assert_eq!(names.platinum_supporter.len(), 1);
}
