//! The collection store: folder and world operations, the naming policy,
//! hide/unhide, deletion cascades, batch merges, freshness.

use worlds_store::entities::WorldApiData;
use worlds_store::entities::WorldModel;
use worlds_store::entities::WorldUserData;
use worlds_store::entities::FolderModel;
use worlds_store::store::FolderManager;

const JAN_2024_MS: i64 = 1704067200000;

fn test_api_data(world_id: &str) -> WorldApiData {
    WorldApiData {
        world_id: world_id.to_string(),
        world_name: "Test World".to_string(),
        description: "Test Description".to_string(),
        author_name: "Test Author".to_string(),
        author_id: "test_author".to_string(),
        tags: vec!["Test Tag".to_string()],
        publication_date: Some(JAN_2024_MS),
        last_update: JAN_2024_MS,
        image_url: "".to_string(),
        capacity: 0,
        recommended_capacity: Some(0),
        visits: Some(0),
        favorites: 0,
        platform: vec!["platform".to_string()],
    }
}

fn add_test_world_to_state(world_id: &str, worlds: &mut Vec<WorldModel>) {
    worlds.push(WorldModel::new(test_api_data(world_id)));
}

#[test]
fn test_increment_folder_name() {
    let mut folders: Vec<FolderModel> = vec![];
    let name = "Test Folder".to_string();

    let result = FolderManager::increment_folder_name(name.clone(), &folders).unwrap();
    assert_eq!(result, "Test Folder");

    let _ = FolderManager::create_folder(name.clone(), &mut folders).unwrap();
    let result = FolderManager::increment_folder_name(name.clone(), &folders).unwrap();
    assert_eq!(result, "Test Folder (1)");
}

#[test]
fn test_increment_folder_name_numbered() {
    let mut folders: Vec<FolderModel> = vec![];
    let _ = FolderManager::create_folder("Test Folder".to_string(), &mut folders).unwrap();
    let name = "Test Folder (1)".to_string();

    let result = FolderManager::increment_folder_name(name, &folders).unwrap();
    assert_eq!(result, "Test Folder (1)");

    let _ = FolderManager::create_folder("Test Folder (1)".to_string(), &mut folders).unwrap();
    let result =
        FolderManager::increment_folder_name("Test Folder (1)".to_string(), &folders).unwrap();
    assert_eq!(result, "Test Folder (2)");
}

#[test]
fn test_naming_collision_policy() {
    let mut folders: Vec<FolderModel> = vec![];
    let assigned = FolderManager::create_folder("Trips".to_string(), &mut folders).unwrap();
    assert_eq!(assigned, "Trips");
    let assigned = FolderManager::create_folder("Trips".to_string(), &mut folders).unwrap();
    assert_eq!(assigned, "Trips (1)");
    let assigned = FolderManager::create_folder("Trips".to_string(), &mut folders).unwrap();
    assert_eq!(assigned, "Trips (2)");
}

#[test]
fn test_create_folder() {
    let mut folders: Vec<FolderModel> = vec![];
    let name = "Test Folder".to_string();

    let result = FolderManager::create_folder(name.clone(), &mut folders).unwrap();
    assert_eq!(result, name);

    let result = FolderManager::create_folder(name, &mut folders).unwrap();
    assert_eq!(result, "Test Folder (1)");
}

#[test]
fn test_delete_folder() {
    let mut folders: Vec<FolderModel> = vec![];
    let mut worlds: Vec<WorldModel> = vec![];
    let name = "Test Folder".to_string();

    let _ = FolderManager::create_folder(name.clone(), &mut folders).unwrap();
    let result = FolderManager::delete_folder(name, &mut folders, &mut worlds);
    assert!(result.is_ok());

    let result =
        FolderManager::delete_folder("NonExistent".to_string(), &mut folders, &mut worlds);
    assert!(result.is_err());
}

#[test]
fn test_add_world_to_folder() {
    let mut folders: Vec<FolderModel> = vec![];
    let mut worlds: Vec<WorldModel> = vec![];
    let folder_name = "Test Folder".to_string();
    let world_id = "test_world".to_string();
    add_test_world_to_state(&world_id, &mut worlds);

    let _ = FolderManager::create_folder(folder_name.clone(), &mut folders).unwrap();
    let result =
        FolderManager::add_world_to_folder(folder_name, world_id, &mut folders, &mut worlds);
    assert!(result.is_ok());
}

#[test]
fn test_add_world_to_folder_is_idempotent() {
    let mut folders: Vec<FolderModel> = vec![];
    let mut worlds: Vec<WorldModel> = vec![];
    add_test_world_to_state("w1", &mut worlds);
    let _ = FolderManager::create_folder("F".to_string(), &mut folders).unwrap();
    FolderManager::add_world_to_folder("F".to_string(), "w1".to_string(), &mut folders, &mut worlds)
        .unwrap();
    FolderManager::add_world_to_folder("F".to_string(), "w1".to_string(), &mut folders, &mut worlds)
        .unwrap();
    assert_eq!(folders[0].world_ids, vec!["w1".to_string()]);
    assert_eq!(worlds[0].user_data.folders, vec!["F".to_string()]);
}

#[test]
fn test_remove_world_from_folder() {
    let mut folders: Vec<FolderModel> = vec![];
    let mut worlds: Vec<WorldModel> = vec![];
    let folder_name = "Test Folder".to_string();
    let world_id = "test_world".to_string();
    add_test_world_to_state(&world_id, &mut worlds);

    let _ = FolderManager::create_folder(folder_name.clone(), &mut folders).unwrap();
    FolderManager::add_world_to_folder(
        folder_name.clone(),
        world_id.clone(),
        &mut folders,
        &mut worlds,
    )
    .unwrap();

    let result =
        FolderManager::remove_world_from_folder(folder_name, world_id, &mut folders, &mut worlds);
    assert!(result.is_ok());
    assert!(folders[0].world_ids.is_empty());
    assert!(worlds[0].user_data.folders.is_empty());
}

#[test]
fn test_remove_world_not_in_folder_fails() {
    let mut folders: Vec<FolderModel> = vec![];
    let mut worlds: Vec<WorldModel> = vec![];
    add_test_world_to_state("w1", &mut worlds);
    let _ = FolderManager::create_folder("F".to_string(), &mut folders).unwrap();
    let result = FolderManager::remove_world_from_folder(
        "F".to_string(),
        "w1".to_string(),
        &mut folders,
        &mut worlds,
    );
    assert!(result.is_err());
}

#[test]
fn test_get_worlds() {
    let mut folders: Vec<FolderModel> = vec![];
    let worlds: Vec<WorldModel> = vec![];
    let name = "Test Folder".to_string();
    let _ = FolderManager::create_folder(name.clone(), &mut folders).unwrap();
    let result = FolderManager::get_worlds(name, &folders, &worlds);
    assert!(result.is_ok());
}

#[test]
fn test_get_world() {
    let worlds: Vec<WorldModel> = vec![];
    let result = FolderManager::get_folders_for_world("test_world_123".to_string(), &worlds);
    assert!(result.is_err());
}

#[test]
fn test_get_unclassified_worlds() {
    let mut worlds: Vec<WorldModel> = vec![];
    add_test_world_to_state("test_world_123", &mut worlds);
    let result = FolderManager::get_unclassified_worlds(&worlds);
    assert!(result.is_ok());
    assert_eq!(result.unwrap().len(), 1);
}

#[test]
fn test_delete_world() {
    let mut folders: Vec<FolderModel> = vec![];
    let mut worlds: Vec<WorldModel> = vec![];
    let world_id = "test_world_to_delete".to_string();
    let folder_name = "Test Folder".to_string();

    add_test_world_to_state(&world_id, &mut worlds);
    let _ = FolderManager::create_folder(folder_name.clone(), &mut folders).unwrap();
    FolderManager::add_world_to_folder(
        folder_name.clone(),
        world_id.clone(),
        &mut folders,
        &mut worlds,
    )
    .unwrap();

    let worlds_in_folder =
        FolderManager::get_worlds(folder_name.clone(), &folders, &worlds).unwrap();
    assert_eq!(worlds_in_folder.len(), 1);
    assert_eq!(worlds_in_folder[0].world_id, world_id);

    let result = FolderManager::delete_world(world_id.clone(), &mut folders, &mut worlds);
    assert!(result.is_ok());

    let worlds_in_folder = FolderManager::get_worlds(folder_name, &folders, &worlds).unwrap();
    assert_eq!(worlds_in_folder.len(), 0);

    let all_worlds = FolderManager::get_all_worlds(&worlds).unwrap();
    assert!(all_worlds.iter().find(|w| w.world_id == world_id).is_none());

    let result =
        FolderManager::delete_world("non_existent_world".to_string(), &mut folders, &mut worlds);
    assert!(result.is_err());
}

#[test]
fn test_delete_world_in_multiple_folders() {
    let mut folders: Vec<FolderModel> = vec![];
    let mut worlds: Vec<WorldModel> = vec![];
    let world_id = "test_world_multi_folders".to_string();
    let folder1 = "Folder One".to_string();
    let folder2 = "Folder Two".to_string();

    add_test_world_to_state(&world_id, &mut worlds);
    let _ = FolderManager::create_folder(folder1.clone(), &mut folders).unwrap();
    let _ = FolderManager::create_folder(folder2.clone(), &mut folders).unwrap();

    FolderManager::add_world_to_folder(folder1.clone(), world_id.clone(), &mut folders, &mut worlds)
        .unwrap();
    FolderManager::add_world_to_folder(folder2.clone(), world_id.clone(), &mut folders, &mut worlds)
        .unwrap();

    assert_eq!(FolderManager::get_worlds(folder1.clone(), &folders, &worlds).unwrap().len(), 1);
    assert_eq!(FolderManager::get_worlds(folder2.clone(), &folders, &worlds).unwrap().len(), 1);

    let result = FolderManager::delete_world(world_id, &mut folders, &mut worlds);
    assert!(result.is_ok());

    assert_eq!(FolderManager::get_worlds(folder1, &folders, &worlds).unwrap().len(), 0);
    assert_eq!(FolderManager::get_worlds(folder2, &folders, &worlds).unwrap().len(), 0);
}

#[test]
fn test_delete_hidden_world() {
    let mut folders: Vec<FolderModel> = vec![];
    let mut worlds: Vec<WorldModel> = vec![];
    let world_id = "test_hidden_world".to_string();

    add_test_world_to_state(&world_id, &mut worlds);
    FolderManager::hide_world(world_id.clone(), &mut folders, &mut worlds).unwrap();

    let hidden_worlds = FolderManager::get_hidden_worlds(&worlds).unwrap();
    assert_eq!(hidden_worlds.len(), 1);
    assert_eq!(hidden_worlds[0].world_id, world_id);

    let result = FolderManager::delete_world(world_id, &mut folders, &mut worlds);
    assert!(result.is_ok());

    let hidden_worlds = FolderManager::get_hidden_worlds(&worlds).unwrap();
    assert_eq!(hidden_worlds.len(), 0);
}

#[test]
fn test_hide_unhide_round_trip() {
    let mut folders: Vec<FolderModel> = vec![];
    let mut worlds: Vec<WorldModel> = vec![];
    add_test_world_to_state("w1", &mut worlds);
    let _ = FolderManager::create_folder("A".to_string(), &mut folders).unwrap();
    let _ = FolderManager::create_folder("B".to_string(), &mut folders).unwrap();
    FolderManager::add_world_to_folder("A".to_string(), "w1".to_string(), &mut folders, &mut worlds)
        .unwrap();
    FolderManager::add_world_to_folder("B".to_string(), "w1".to_string(), &mut folders, &mut worlds)
        .unwrap();

    FolderManager::hide_world("w1".to_string(), &mut folders, &mut worlds).unwrap();
    assert!(folders[0].world_ids.is_empty());
    assert!(folders[1].world_ids.is_empty());
    // The ledger is deliberately kept while hidden.
    assert_eq!(worlds[0].user_data.folders, vec!["A".to_string(), "B".to_string()]);

    FolderManager::unhide_world("w1".to_string(), &mut folders, &mut worlds).unwrap();
    let memberships =
        FolderManager::get_folders_for_world("w1".to_string(), &worlds).unwrap();
    assert_eq!(memberships, vec!["A".to_string(), "B".to_string()]);
    assert_eq!(folders[0].world_ids, vec!["w1".to_string()]);
    assert_eq!(folders[1].world_ids, vec!["w1".to_string()]);
}

#[test]
fn test_delete_sole_membership_leaves_world_ungrouped() {
    let mut folders: Vec<FolderModel> = vec![];
    let mut worlds: Vec<WorldModel> = vec![];
    add_test_world_to_state("w1", &mut worlds);
    let _ = FolderManager::create_folder("Only".to_string(), &mut folders).unwrap();
    FolderManager::add_world_to_folder(
        "Only".to_string(),
        "w1".to_string(),
        &mut folders,
        &mut worlds,
    )
    .unwrap();
    assert_eq!(FolderManager::get_unclassified_worlds(&worlds).unwrap().len(), 0);

    FolderManager::delete_folder("Only".to_string(), &mut folders, &mut worlds).unwrap();
    let unclassified = FolderManager::get_unclassified_worlds(&worlds).unwrap();
    assert_eq!(unclassified.len(), 1);
    assert_eq!(unclassified[0].world_id, "w1");
}

#[test]
fn test_rename_folder_rewrites_ledgers() {
    let mut folders: Vec<FolderModel> = vec![];
    let mut worlds: Vec<WorldModel> = vec![];
    let mut preferences = worlds_store::entities::PreferenceModel::new();
    add_test_world_to_state("w1", &mut worlds);
    let _ = FolderManager::create_folder("Old".to_string(), &mut folders).unwrap();
    FolderManager::add_world_to_folder("Old".to_string(), "w1".to_string(), &mut folders, &mut worlds)
        .unwrap();

    FolderManager::rename_folder(
        "Old".to_string(),
        "New".to_string(),
        &mut folders,
        &mut worlds,
        &mut preferences,
    )
    .unwrap();
    assert_eq!(folders[0].folder_name, "New");
    assert_eq!(worlds[0].user_data.folders, vec!["New".to_string()]);

    // Renaming onto another folder's name is refused.
    let _ = FolderManager::create_folder("Third".to_string(), &mut folders).unwrap();
    let result = FolderManager::rename_folder(
        "New".to_string(),
        "Third".to_string(),
        &mut folders,
        &mut worlds,
        &mut preferences,
    );
    assert!(result.is_err());
}

#[test]
fn test_add_worlds_keeps_fresher_record() {
    let mut worlds: Vec<WorldModel> = vec![];
    let custom_data = worlds_store::custom_data::CustomData::new();
    add_test_world_to_state("w1", &mut worlds);
    let original_update = worlds[0].api_data.last_update;

    // A staler record leaves the stored provenance alone.
    let mut stale = test_api_data("w1");
    stale.last_update = original_update - 1000;
    stale.world_name = "Stale".to_string();
    FolderManager::add_worlds(&mut worlds, vec![stale], &custom_data, JAN_2024_MS).unwrap();
    assert_eq!(worlds[0].api_data.world_name, "Test World");

    // A strictly newer record replaces it.
    let mut newer = test_api_data("w1");
    newer.last_update = original_update + 1000;
    newer.world_name = "Newer".to_string();
    FolderManager::add_worlds(&mut worlds, vec![newer], &custom_data, JAN_2024_MS).unwrap();
    assert_eq!(worlds[0].api_data.world_name, "Newer");

    // An exact tie goes to the greater visit count.
    let mut tie = test_api_data("w1");
    tie.last_update = original_update + 1000;
    tie.visits = Some(99);
    tie.world_name = "Tie".to_string();
    FolderManager::add_worlds(&mut worlds, vec![tie], &custom_data, JAN_2024_MS).unwrap();
    assert_eq!(worlds[0].api_data.world_name, "Tie");

    // An unknown world is appended.
    FolderManager::add_worlds(&mut worlds, vec![test_api_data("w2")], &custom_data, JAN_2024_MS)
        .unwrap();
    assert_eq!(worlds.len(), 2);
    assert_eq!(worlds[1].api_data.world_id, "w2");
}

#[test]
fn test_add_worlds_seeds_flags_from_overrides() {
    let mut worlds: Vec<WorldModel> = vec![];
    let mut custom_data = worlds_store::custom_data::CustomData::new();
    custom_data.set_world_favorite("w9", true);
    custom_data.set_world_photographed("w9", true);
    FolderManager::add_worlds(&mut worlds, vec![test_api_data("w9")], &custom_data, JAN_2024_MS)
        .unwrap();
    assert!(worlds[0].user_data.is_favorite);
    assert!(worlds[0].user_data.is_photographed);
    assert!(!worlds[0].user_data.is_shared);
}

#[test]
fn test_freshness_threshold() {
    let now = JAN_2024_MS;
    let five_hours_ago = WorldUserData {
        date_added: now,
        last_checked: now - 5 * 3600 * 1000,
        memo: "".to_string(),
        folders: vec![],
        hidden: false,
        is_photographed: false,
        is_shared: false,
        is_favorite: false,
    };
    assert!(five_hours_ago.needs_update_at(now));
    let one_hour_ago = WorldUserData { last_checked: now - 3600 * 1000, ..five_hours_ago };
    assert!(!one_hour_ago.needs_update_at(now));
}

#[test]
fn test_move_folder_reorders() {
    let mut folders: Vec<FolderModel> = vec![];
    let _ = FolderManager::create_folder("A".to_string(), &mut folders).unwrap();
    let _ = FolderManager::create_folder("B".to_string(), &mut folders).unwrap();
    let _ = FolderManager::create_folder("C".to_string(), &mut folders).unwrap();
    FolderManager::move_folder("C".to_string(), 0, &mut folders).unwrap();
    assert_eq!(folders[0].folder_name, "C");
    assert_eq!(folders[1].folder_name, "A");
    assert_eq!(folders[2].folder_name, "B");
}

#[test]
fn test_folder_share_expiry() {
    let mut folders: Vec<FolderModel> = vec![];
    let _ = FolderManager::create_folder("S".to_string(), &mut folders).unwrap();
    FolderManager::set_folder_share(
        "S".to_string(),
        &mut folders,
        "share123".to_string(),
        "2024-01-01T00:00:00Z".to_string(),
    )
    .unwrap();
    // Before the expiry the handle is returned.
    let r = FolderManager::update_folder_share("S".to_string(), &mut folders, JAN_2024_MS).unwrap();
    assert_eq!(r, Some("share123".to_string()));
    // Thirty days on, it lapses and is cleared.
    let after = JAN_2024_MS + 31 * 24 * 3600 * 1000;
    let r = FolderManager::update_folder_share("S".to_string(), &mut folders, after).unwrap();
    assert_eq!(r, None);
    let r = FolderManager::update_folder_share("S".to_string(), &mut folders, JAN_2024_MS).unwrap();
    assert_eq!(r, None);

    // A bad timestamp is rejected.
    let result = FolderManager::set_folder_share(
        "S".to_string(),
        &mut folders,
        "x".to_string(),
        "not a timestamp".to_string(),
    );
    assert!(result.is_err());
}

#[test]
fn test_invalid_timestamp() {
    // A log stamp that does not parse never counts as outdated.
    assert!(!worlds_store::logs::is_outdated_timestamp("invalid", 0));
}

#[test]
fn test_rebuild_ledgers_from_folder_side() {
    let mut folders: Vec<FolderModel> = vec![];
    let mut worlds: Vec<WorldModel> = vec![];
    add_test_world_to_state("w1", &mut worlds);
    add_test_world_to_state("w2", &mut worlds);
    let _ = FolderManager::create_folder("A".to_string(), &mut folders).unwrap();
    let _ = FolderManager::create_folder("B".to_string(), &mut folders).unwrap();
    FolderManager::add_world_to_folder("A".to_string(), "w1".to_string(), &mut folders, &mut worlds)
        .unwrap();
    FolderManager::add_world_to_folder("B".to_string(), "w1".to_string(), &mut folders, &mut worlds)
        .unwrap();
    // Scrub the ledgers, as a fresh load starts without them.
    for w in worlds.iter_mut() {
        w.user_data.folders.clear();
    }
    FolderManager::rebuild_ledgers(&folders, &mut worlds);
    assert_eq!(worlds[0].user_data.folders, vec!["A".to_string(), "B".to_string()]);
    assert!(worlds[1].user_data.folders.is_empty());
}

#[test]
fn test_apply_status_overrides() {
    let mut worlds: Vec<WorldModel> = vec![];
    add_test_world_to_state("w1", &mut worlds);
    add_test_world_to_state("w2", &mut worlds);
    let mut cd = worlds_store::custom_data::CustomData::new();
    cd.set_world_favorite("w1", true);
    cd.set_world_shared("w2", true);
    FolderManager::apply_status_overrides(&mut worlds, &cd);
    assert!(worlds[0].user_data.is_favorite);
    assert!(!worlds[0].user_data.is_shared);
    assert!(!worlds[1].user_data.is_favorite);
    assert!(worlds[1].user_data.is_shared);
}

#[test]
fn test_decode_refuses_non_canonical_text() {
    // A text that is not the encoding of any collection is refused.
    assert!(worlds_store::codec::decode_folders("00:").is_none());
    assert!(worlds_store::codec::decode_folders("garbage").is_none());
}
