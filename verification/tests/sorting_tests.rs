//! The display sort: chosen fields, directions, tiebreakers.

use worlds_store::entities::Platform;
use worlds_store::entities::WorldDisplayData;
use worlds_store::sorting::SortingService;

fn create_test_world_display_data(
    id: &str,
    name: &str,
    author: &str,
    visits: i32,
    favorites: i32,
    capacity: i32,
    date_added: &str,
    last_updated: &str,
) -> WorldDisplayData {
    WorldDisplayData {
        world_id: id.to_string(),
        name: name.to_string(),
        thumbnail_url: "".to_string(),
        author_name: author.to_string(),
        favorites,
        last_updated: last_updated.to_string(),
        visits,
        date_added: date_added.to_string(),
        platform: Platform::PC,
        folders: vec![],
        tags: vec![],
        capacity,
        is_photographed: false,
        is_shared: false,
        is_favorite: false,
    }
}

#[test]
fn test_sort_world_display_data_by_name() {
    let worlds = vec![
        create_test_world_display_data(
            "1",
            "Zebra",
            "Author1",
            100,
            10,
            16,
            "2024-01-01T00:00:00.000Z",
            "2024-01-01",
        ),
        create_test_world_display_data(
            "2",
            "Alpha",
            "Author2",
            200,
            20,
            16,
            "2024-01-02T00:00:00.000Z",
            "2024-01-02",
        ),
        create_test_world_display_data(
            "3",
            "Beta",
            "Author3",
            150,
            15,
            16,
            "2024-01-03T00:00:00.000Z",
            "2024-01-03",
        ),
    ];

    let sorted = SortingService::sort_world_display_data(worlds, "name", "asc");

    assert_eq!(sorted[0].name, "Alpha");
    assert_eq!(sorted[1].name, "Beta");
    assert_eq!(sorted[2].name, "Zebra");
}

#[test]
fn test_sort_world_display_data_by_visits() {
    let worlds = vec![
        create_test_world_display_data(
            "1",
            "World1",
            "Author1",
            300,
            10,
            16,
            "2024-01-01T00:00:00.000Z",
            "2024-01-01",
        ),
        create_test_world_display_data(
            "2",
            "World2",
            "Author2",
            100,
            20,
            16,
            "2024-01-02T00:00:00.000Z",
            "2024-01-02",
        ),
        create_test_world_display_data(
            "3",
            "World3",
            "Author3",
            200,
            15,
            16,
            "2024-01-03T00:00:00.000Z",
            "2024-01-03",
        ),
    ];

    let sorted = SortingService::sort_world_display_data(worlds, "visits", "asc");

    assert_eq!(sorted[0].visits, 100);
    assert_eq!(sorted[1].visits, 200);
    assert_eq!(sorted[2].visits, 300);
}

#[test]
fn test_sort_world_display_data_descending() {
    let worlds = vec![
        create_test_world_display_data(
            "1",
            "World1",
            "Author1",
            100,
            5,
            16,
            "2024-01-01T00:00:00.000Z",
            "2024-01-01",
        ),
        create_test_world_display_data(
            "2",
            "World2",
            "Author2",
            200,
            20,
            16,
            "2024-01-02T00:00:00.000Z",
            "2024-01-02",
        ),
        create_test_world_display_data(
            "3",
            "World3",
            "Author3",
            150,
            10,
            16,
            "2024-01-03T00:00:00.000Z",
            "2024-01-03",
        ),
    ];

    let sorted = SortingService::sort_world_display_data(worlds, "favorites", "desc");

    assert_eq!(sorted[0].favorites, 20);
    assert_eq!(sorted[1].favorites, 10);
    assert_eq!(sorted[2].favorites, 5);
}

#[test]
fn test_sort_case_insensitive_names() {
    let worlds = vec![
        create_test_world_display_data("1", "zebra", "A", 0, 0, 0, "", ""),
        create_test_world_display_data("2", "ALPHA", "A", 0, 0, 0, "", ""),
        create_test_world_display_data("3", "Beta", "A", 0, 0, 0, "", ""),
    ];
    let sorted = SortingService::sort_world_display_data(worlds, "name", "asc");
    assert_eq!(sorted[0].name, "ALPHA");
    assert_eq!(sorted[1].name, "Beta");
    assert_eq!(sorted[2].name, "zebra");
}

#[test]
fn test_sort_tiebreaker_by_id() {
    let worlds = vec![
        create_test_world_display_data("3", "Same", "A", 0, 7, 0, "", ""),
        create_test_world_display_data("1", "Same", "A", 0, 7, 0, "", ""),
        create_test_world_display_data("2", "Same", "A", 0, 7, 0, "", ""),
    ];
    let sorted = SortingService::sort_world_display_data(worlds, "favorites", "asc");
    assert_eq!(sorted[0].world_id, "1");
    assert_eq!(sorted[1].world_id, "2");
    assert_eq!(sorted[2].world_id, "3");
}

#[test]
fn test_sort_invalid_field_keeps_tiebreak_order() {
    let worlds = vec![
        create_test_world_display_data("2", "B", "A", 0, 0, 0, "", ""),
        create_test_world_display_data("1", "A", "A", 0, 0, 0, "", ""),
    ];
    let sorted = SortingService::sort_world_display_data(worlds, "invalidField", "asc");
    assert_eq!(sorted[0].world_id, "1");
    assert_eq!(sorted[1].world_id, "2");
}
