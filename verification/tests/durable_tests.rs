//! The durable layer: round trips, corruption recovery, self-healing,
//! and the crash window of the atomic write.

use worlds_store::durable::Disk;
use worlds_store::durable::FileService;
use worlds_store::entities::FolderModel;
use worlds_store::entities::ShareInfo;
use worlds_store::entities::WorldApiData;
use worlds_store::entities::WorldModel;
use worlds_store::entities::WorldUserData;
use worlds_store::errors::FileError;

fn sample_folders() -> Vec<FolderModel> {
    vec![
        FolderModel {
            folder_name: "Trips".to_string(),
            world_ids: vec!["w1".to_string(), "w2".to_string()],
            share: Some(ShareInfo { id: "s1".to_string(), expiry_time: 1704067200000 }),
            color: Some("#a855f7".to_string()),
        },
        FolderModel {
            folder_name: "Favorites".to_string(),
            world_ids: vec![],
            share: None,
            color: None,
        },
    ]
}

fn assert_folders_equal(a: &[FolderModel], b: &[FolderModel]) {
    assert_eq!(a.len(), b.len());
    for (x, y) in a.iter().zip(b.iter()) {
        assert_eq!(x.folder_name, y.folder_name);
        assert_eq!(x.world_ids, y.world_ids);
        assert_eq!(x.color, y.color);
        match (&x.share, &y.share) {
            (Some(s), Some(t)) => {
                assert_eq!(s.id, t.id);
                assert_eq!(s.expiry_time, t.expiry_time);
            },
            (None, None) => {},
            _ => panic!("share handles differ"),
        }
    }
}

#[test]
fn test_codec_round_trip() {
    let folders = sample_folders();
    let text = worlds_store::codec::encode_folders(&folders);
    let decoded = worlds_store::codec::decode_folders(text.as_str()).unwrap();
    assert_folders_equal(&folders, &decoded);
}

#[test]
fn test_codec_round_trip_empty() {
    let folders: Vec<FolderModel> = vec![];
    let text = worlds_store::codec::encode_folders(&folders);
    let decoded = worlds_store::codec::decode_folders(text.as_str()).unwrap();
    assert_eq!(decoded.len(), 0);
}

#[test]
fn test_write_then_read_round_trip() {
    let mut disk = Disk::new();
    let path = "folders".to_string();
    let folders = sample_folders();
    FileService::write_folders(&mut disk, &path, &folders).unwrap();
    let read_back = FileService::read_folders(&mut disk, &path).unwrap();
    assert_folders_equal(&folders, &read_back);
}

#[test]
fn test_corrupted_primary_recovers_from_backup_and_heals() {
    let mut disk = Disk::new();
    let path = "folders".to_string();
    let folders = sample_folders();
    // Two writes leave the previous generation in the backup.
    FileService::write_folders(&mut disk, &path, &folders).unwrap();
    FileService::write_folders(&mut disk, &path, &folders).unwrap();
    // Null-fill the primary, as a torn write would.
    disk.write(&path, "\0\0\0\0\0\0\0\0\0\0".to_string());
    let recovered = FileService::read_folders(&mut disk, &path).unwrap();
    assert_folders_equal(&folders, &recovered);
    // The primary healed: a second read succeeds from the primary alone.
    let healed = disk.read(&path).unwrap();
    assert!(!FileService::is_file_corrupted_with_null_bytes(healed.as_str()));
}

#[test]
fn test_empty_primary_counts_as_corrupted() {
    assert!(FileService::is_file_corrupted_with_null_bytes(""));
    assert!(FileService::is_file_corrupted_with_null_bytes("\0\0\0"));
    assert!(!FileService::is_file_corrupted_with_null_bytes("x\0\0"));
}

#[test]
fn test_read_fails_without_backup() {
    let mut disk = Disk::new();
    let path = "folders".to_string();
    disk.write(&path, "\0\0\0\0".to_string());
    let result = FileService::read_folders(&mut disk, &path);
    assert!(matches!(result, Err(FileError::InvalidFile)));

    let mut empty_disk = Disk::new();
    let result = FileService::read_folders(&mut empty_disk, &path);
    assert!(matches!(result, Err(FileError::FileNotFound)));
}

#[test]
fn test_crash_between_stage_and_rename_keeps_target() {
    let mut disk = Disk::new();
    let path = "folders".to_string();
    let folders = sample_folders();
    FileService::write_folders(&mut disk, &path, &folders).unwrap();
    let before = disk.read(&path).unwrap();
    // Simulate the crash window: prepare (backup + temporary) without the
    // rename. The target must be byte-for-byte what it was.
    FileService::atomic_write_prepare(&mut disk, &path, &"replacement".to_string());
    let after = disk.read(&path).unwrap();
    assert_eq!(before, after);
    // The recovery read still yields the old collection.
    let recovered = FileService::read_folders(&mut disk, &path).unwrap();
    assert_folders_equal(&folders, &recovered);
}

#[test]
fn test_backup_path_shape() {
    let p = FileService::get_backup_path(&"worlds.json".to_string());
    assert_eq!(p, "worlds.json.bak");
}

fn sample_worlds() -> Vec<WorldModel> {
    vec![
        WorldModel {
            api_data: WorldApiData {
                image_url: "img".to_string(),
                world_name: "Starfarer".to_string(),
                world_id: "wrld_1".to_string(),
                author_name: "Waai".to_string(),
                author_id: "usr_1".to_string(),
                capacity: 80,
                recommended_capacity: Some(30),
                tags: vec!["author_tag_train".to_string(), "system_approved".to_string()],
                publication_date: None,
                last_update: 1704067200000,
                description: "a train world".to_string(),
                visits: Some(590502),
                favorites: 31292,
                platform: vec!["standalonewindows".to_string(), "android".to_string()],
            },
            user_data: WorldUserData {
                date_added: 1704067200000,
                last_checked: 1704070800000,
                memo: "visit again".to_string(),
                folders: vec!["Trips".to_string()],
                hidden: false,
                is_photographed: true,
                is_shared: false,
                is_favorite: true,
            },
        },
        WorldModel {
            api_data: WorldApiData {
                image_url: "".to_string(),
                world_name: "Hidden Hollow".to_string(),
                world_id: "wrld_2".to_string(),
                author_name: "".to_string(),
                author_id: "".to_string(),
                capacity: -1,
                recommended_capacity: None,
                tags: vec![],
                publication_date: Some(-86400000),
                last_update: 0,
                description: "".to_string(),
                visits: None,
                favorites: 0,
                platform: vec![],
            },
            user_data: WorldUserData {
                date_added: 0,
                last_checked: 0,
                memo: "".to_string(),
                folders: vec![],
                hidden: true,
                is_photographed: false,
                is_shared: false,
                is_favorite: false,
            },
        },
    ]
}

fn assert_worlds_equal(a: &[WorldModel], b: &[WorldModel]) {
    assert_eq!(a.len(), b.len());
    for (x, y) in a.iter().zip(b.iter()) {
        assert_eq!(x.api_data.image_url, y.api_data.image_url);
        assert_eq!(x.api_data.world_name, y.api_data.world_name);
        assert_eq!(x.api_data.world_id, y.api_data.world_id);
        assert_eq!(x.api_data.author_name, y.api_data.author_name);
        assert_eq!(x.api_data.author_id, y.api_data.author_id);
        assert_eq!(x.api_data.capacity, y.api_data.capacity);
        assert_eq!(x.api_data.recommended_capacity, y.api_data.recommended_capacity);
        assert_eq!(x.api_data.tags, y.api_data.tags);
        assert_eq!(x.api_data.publication_date, y.api_data.publication_date);
        assert_eq!(x.api_data.last_update, y.api_data.last_update);
        assert_eq!(x.api_data.description, y.api_data.description);
        assert_eq!(x.api_data.visits, y.api_data.visits);
        assert_eq!(x.api_data.favorites, y.api_data.favorites);
        assert_eq!(x.api_data.platform, y.api_data.platform);
        assert_eq!(x.user_data.date_added, y.user_data.date_added);
        assert_eq!(x.user_data.last_checked, y.user_data.last_checked);
        assert_eq!(x.user_data.memo, y.user_data.memo);
        assert_eq!(x.user_data.folders, y.user_data.folders);
        assert_eq!(x.user_data.hidden, y.user_data.hidden);
        assert_eq!(x.user_data.is_photographed, y.user_data.is_photographed);
        assert_eq!(x.user_data.is_shared, y.user_data.is_shared);
        assert_eq!(x.user_data.is_favorite, y.user_data.is_favorite);
    }
}

#[test]
fn test_worlds_codec_round_trip() {
    let worlds = sample_worlds();
    let text = worlds_store::codec::encode_worlds(&worlds);
    let decoded = worlds_store::codec::decode_worlds(text.as_str()).unwrap();
    assert_worlds_equal(&worlds, &decoded);

    let empty: Vec<WorldModel> = vec![];
    let text = worlds_store::codec::encode_worlds(&empty);
    assert_eq!(worlds_store::codec::decode_worlds(text.as_str()).unwrap().len(), 0);
    assert!(worlds_store::codec::decode_worlds("not a worlds file").is_none());
}

#[test]
fn test_worlds_write_then_read_round_trip() {
    let mut disk = Disk::new();
    let path = "worlds".to_string();
    let worlds = sample_worlds();
    FileService::write_worlds(&mut disk, &path, &worlds).unwrap();
    let read_back = FileService::read_worlds(&mut disk, &path).unwrap();
    assert_worlds_equal(&worlds, &read_back);
}

#[test]
fn test_worlds_corrupted_primary_recovers_from_backup() {
    let mut disk = Disk::new();
    let path = "worlds".to_string();
    let worlds = sample_worlds();
    FileService::write_worlds(&mut disk, &path, &worlds).unwrap();
    FileService::write_worlds(&mut disk, &path, &worlds).unwrap();
    disk.write(&path, "\0\0\0\0\0\0".to_string());
    let recovered = FileService::read_worlds(&mut disk, &path).unwrap();
    assert_worlds_equal(&worlds, &recovered);
    // The backup is left intact.
    let backup = FileService::get_backup_path(&path);
    assert!(disk.read(&backup).is_some());
}
