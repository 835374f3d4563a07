use ethereal_waves::image_store::{ImageStore, REQUEST_CAPACITY};

#[test]
fn the_loader_queue_has_sixty_four_places() {
    assert_eq!(REQUEST_CAPACITY, 64);
}

#[test]
fn a_request_is_passed_on_with_the_joined_path() {
    let mut store: ImageStore<u32> = ImageStore::new("/cache/artwork".to_string());
    assert_eq!(store.request("abc.png"), Some("/cache/artwork/abc.png".to_string()));
    assert_eq!(store.waiting(), 1);
    assert_eq!(store.request("def.jpg"), Some("/cache/artwork/def.jpg".to_string()));
    assert_eq!(store.waiting(), 2);
}

#[test]
fn a_request_for_a_waiting_picture_is_not_passed_on_again() {
    let mut store: ImageStore<u32> = ImageStore::new("/cache/artwork".to_string());
    assert!(store.request("abc.png").is_some());
    assert_eq!(store.request("abc.png"), None);
    assert_eq!(store.request("abc.png"), None);
    assert_eq!(store.waiting(), 1);
}

#[test]
fn a_picture_is_not_there_before_it_is_loaded() {
    let mut store: ImageStore<u32> = ImageStore::new("/cache/artwork".to_string());
    assert_eq!(store.get("abc.png"), None);
    store.request("abc.png");
    assert_eq!(store.get("abc.png"), None);
}

#[test]
fn a_loaded_picture_is_found_and_not_asked_for_again() {
    let mut store: ImageStore<u32> = ImageStore::new("/cache/artwork".to_string());
    let path = store.request("abc.png").unwrap();
    assert!(store.begin_load(&path));
    assert_eq!(store.waiting(), 0);
    assert_eq!(store.get("abc.png"), None);
    store.finish_load(path, 7);
    assert_eq!(store.get("abc.png"), Some(&7));
    assert_eq!(store.get("other.png"), None);
    assert_eq!(store.request("abc.png"), None);
    assert_eq!(store.waiting(), 0);
}

#[test]
fn a_request_made_while_the_file_is_read_is_passed_on_and_then_skipped() {
    let mut store: ImageStore<u32> = ImageStore::new("/cache/artwork".to_string());
    let path = store.request("abc.png").unwrap();
    assert!(store.begin_load(&path));
    let again = store.request("abc.png").unwrap();
    assert_eq!(again, path);
    store.finish_load(path, 1);
    assert!(!store.begin_load(&again));
    assert_eq!(store.waiting(), 0);
    assert_eq!(store.get("abc.png"), Some(&1));
}

#[test]
fn a_request_given_up_may_be_made_again() {
    let mut store: ImageStore<u32> = ImageStore::new("/cache/artwork".to_string());
    let a = store.request("a.png").unwrap();
    let b = store.request("b.png").unwrap();
    store.abandon(&b);
    assert_eq!(store.waiting(), 1);
    assert_eq!(store.request("a.png"), None);
    assert_eq!(store.request("b.png"), Some(b));
    store.abandon("/cache/artwork/never.png");
    assert_eq!(store.waiting(), 2);
    store.abandon(&a);
    assert_eq!(store.waiting(), 1);
    assert!(store.request("a.png").is_some());
}

#[test]
fn a_later_picture_replaces_the_one_held() {
    let mut store: ImageStore<String> = ImageStore::new("/art".to_string());
    store.finish_load("/art/x.png".to_string(), "first".to_string());
    store.finish_load("/art/x.png".to_string(), "second".to_string());
    assert_eq!(store.get("x.png").map(|s| s.as_str()), Some("second"));
}

#[test]
fn an_absolute_name_stands_for_itself() {
    let mut store: ImageStore<u32> = ImageStore::new("/cache/artwork".to_string());
    assert_eq!(store.request("/elsewhere/x.png"), Some("/elsewhere/x.png".to_string()));
    store.finish_load("/elsewhere/x.png".to_string(), 3);
    assert_eq!(store.get("/elsewhere/x.png"), Some(&3));
}

#[test]
fn a_directory_with_a_trailing_slash_joins_the_same() {
    let mut store: ImageStore<u32> = ImageStore::new("/cache/artwork/".to_string());
    assert_eq!(store.request("abc.png"), Some("/cache/artwork/abc.png".to_string()));
}

#[test]
fn a_path_is_asked_for_and_found_as_a_name_is() {
    let mut store: ImageStore<u32> = ImageStore::new("/art".to_string());
    assert_eq!(store.request_path("/art/a.png".to_string()), Some("/art/a.png".to_string()));
    assert_eq!(store.request_path("/art/a.png".to_string()), None);
    assert_eq!(store.request("a.png"), None);
    assert_eq!(store.get_path("/art/a.png"), None);
    assert!(store.begin_load("/art/a.png"));
    store.finish_load("/art/a.png".to_string(), 9);
    assert_eq!(store.get_path("/art/a.png"), Some(&9));
    assert_eq!(store.get("a.png"), Some(&9));
    assert_eq!(store.get_path("a.png"), None);
    assert_eq!(store.request_path("/art/a.png".to_string()), None);
}

#[test]
fn requests_wait_in_the_order_they_were_made() {
    let mut store: ImageStore<u32> = ImageStore::new("/art".to_string());
    for i in 0..100 {
        assert!(store.request(&format!("{i}.png")).is_some());
    }
    assert_eq!(store.waiting(), 100);
    for i in (0..100).step_by(2) {
        store.abandon(&format!("/art/{i}.png"));
    }
    assert_eq!(store.waiting(), 50);
    for i in 0..100 {
        assert_eq!(store.request(&format!("{i}.png")).is_some(), i % 2 == 0);
    }
    assert_eq!(store.waiting(), 100);
}
