use sku_image_microservice::image::{position_of, SkuImage, SkuImageExt};

fn ids(list: &[&str]) -> Vec<String> {
    list.iter().map(|s| s.to_string()).collect()
}

fn collection(sku: u32, cover: Option<&str>, images: &[&str]) -> SkuImage {
    SkuImage { sku, cover_image_id: cover.map(|c| c.to_string()), image_ids: ids(images) }
}

fn holds_invariant(c: &SkuImage) -> bool {
    match &c.cover_image_id {
        None => c.image_ids.is_empty(),
        Some(cover) => c.image_ids.contains(cover),
    }
}

fn is_lower_hex_token(token: &str) -> bool {
    token.len() == 32 && token.chars().all(|c| "0123456789abcdef".contains(c))
}

#[test]
fn new_collection_is_empty() {
    let c = SkuImage::new(7);
    assert_eq!(c.sku, 7);
    assert_eq!(c.get_cover(), None);
    assert!(c.get_images().is_empty());
}

#[test]
fn add_image_with_token_composes_the_id() {
    let mut c = SkuImage::new(1);
    let id = c.add_image_with_token("abc".to_string(), "png".to_string());
    assert_eq!(id, "abc.png");
    assert_eq!(c.image_ids, ids(&["abc.png"]));
    assert_eq!(c.cover_image_id, Some("abc.png".to_string()));
}

#[test]
fn add_image_with_token_keeps_the_token_apart_from_the_id() {
    let mut c = SkuImage::new(1);
    let id = c.add_image_with_token("abc".to_string(), "".to_string());
    assert_eq!(id, "abc.");
    assert_ne!(id, "abc");
}

#[test]
fn add_image_returns_a_fresh_id_with_the_extension() {
    let mut c = SkuImage::new(1);
    let id = c.add_image("photo".to_string(), "png".to_string(), vec![1, 2, 3]).unwrap();
    assert_eq!(id.len(), 36);
    assert!(id.ends_with(".png"));
    assert!(is_lower_hex_token(&id[..32]));
    assert_eq!(c.image_ids, vec![id.clone()]);
    assert_eq!(c.cover_image_id, Some(id));
}

#[test]
fn add_image_gives_different_ids() {
    let mut c = SkuImage::new(1);
    let a = c.add_image("a".to_string(), "jpg".to_string(), Vec::new()).unwrap();
    let b = c.add_image("a".to_string(), "jpg".to_string(), Vec::new()).unwrap();
    assert_ne!(a, b);
    assert_eq!(c.image_ids, vec![a.clone(), b]);
    assert_eq!(c.cover_image_id, Some(a));
}

#[test]
fn add_image_appends_and_keeps_the_cover() {
    let mut c = collection(1, Some("b"), &["a", "b"]);
    let id = c.add_image_with_token("t".to_string(), "gif".to_string());
    assert_eq!(c.image_ids, ids(&["a", "b", "t.gif"]));
    assert_eq!(id, "t.gif");
    assert_eq!(c.cover_image_id, Some("b".to_string()));
}

#[test]
fn set_cover_of_known_image() {
    let mut c = collection(1, Some("a"), &["a", "b", "c"]);
    {
        let r = c.set_cover("c".to_string()).unwrap();
        assert_eq!(r.cover_image_id, Some("c".to_string()));
    }
    assert_eq!(c.get_cover(), Some("c".to_string()));
    assert_eq!(c.image_ids, ids(&["a", "b", "c"]));
}

#[test]
fn set_cover_of_unknown_image_is_refused() {
    let mut c = collection(1, Some("a"), &["a", "b"]);
    let before = c.clone();
    let r = c.set_cover("zzz".to_string()).map(|_| ());
    assert_eq!(r, Err("unknown image for this SKU".to_string()));
    assert_eq!(c, before);
}

#[test]
fn set_cover_on_empty_collection_is_refused() {
    let mut c = SkuImage::new(3);
    let r = c.set_cover("a".to_string()).map(|_| ());
    assert_eq!(r, Err("unknown image for this SKU".to_string()));
    assert_eq!(c, SkuImage::new(3));
}

#[test]
fn swap_images_exchanges_two_positions() {
    let mut c = collection(1, Some("a"), &["a", "b", "c"]);
    assert!(c.swap_images(0, 2).is_ok());
    assert_eq!(c.image_ids, ids(&["c", "b", "a"]));
    assert_eq!(c.cover_image_id, Some("a".to_string()));
}

#[test]
fn swap_images_with_itself_changes_nothing() {
    let mut c = collection(1, Some("a"), &["a", "b"]);
    assert!(c.swap_images(1, 1).is_ok());
    assert_eq!(c, collection(1, Some("a"), &["a", "b"]));
}

#[test]
fn swap_images_start_out_of_bounds() {
    let mut c = collection(1, Some("a"), &["a", "b"]);
    let r = c.swap_images(2, 0).map(|_| ());
    assert_eq!(r, Err("invalid start position".to_string()));
    assert_eq!(c, collection(1, Some("a"), &["a", "b"]));
}

#[test]
fn swap_images_target_out_of_bounds() {
    let mut c = collection(1, Some("a"), &["a", "b"]);
    let r = c.swap_images(0, 5).map(|_| ());
    assert_eq!(r, Err("invalid target position".to_string()));
    assert_eq!(c, collection(1, Some("a"), &["a", "b"]));
}

#[test]
fn swap_images_both_out_of_bounds_reports_the_start() {
    let mut c = collection(1, Some("a"), &["a", "b"]);
    let r = c.swap_images(9, 9).map(|_| ());
    assert_eq!(r, Err("invalid start position".to_string()));
    assert_eq!(c, collection(1, Some("a"), &["a", "b"]));
}

#[test]
fn swap_images_on_empty_collection() {
    let mut c = SkuImage::new(1);
    let r = c.swap_images(0, 0).map(|_| ());
    assert_eq!(r, Err("invalid start position".to_string()));
}

#[test]
fn remove_cover_falls_back_to_new_first() {
    let mut c = collection(1, Some("a"), &["a", "b", "c"]);
    assert!(c.remove_image("a".to_string()).is_ok());
    assert_eq!(c.image_ids, ids(&["b", "c"]));
    assert_eq!(c.cover_image_id, Some("b".to_string()));
}

#[test]
fn remove_cover_in_the_middle_falls_back_to_first() {
    let mut c = collection(1, Some("b"), &["a", "b", "c"]);
    assert!(c.remove_image("b".to_string()).is_ok());
    assert_eq!(c.image_ids, ids(&["a", "c"]));
    assert_eq!(c.cover_image_id, Some("a".to_string()));
}

#[test]
fn remove_non_cover_keeps_the_cover() {
    let mut c = collection(1, Some("c"), &["a", "b", "c"]);
    assert!(c.remove_image("a".to_string()).is_ok());
    assert_eq!(c.image_ids, ids(&["b", "c"]));
    assert_eq!(c.cover_image_id, Some("c".to_string()));
}

#[test]
fn remove_last_image_clears_the_cover() {
    let mut c = collection(1, Some("a"), &["a"]);
    assert!(c.remove_image("a".to_string()).is_ok());
    assert!(c.image_ids.is_empty());
    assert_eq!(c.cover_image_id, None);
}

#[test]
fn remove_takes_only_the_first_of_equal_ids() {
    let mut c = collection(1, Some("a"), &["a", "b", "a"]);
    assert!(c.remove_image("a".to_string()).is_ok());
    assert_eq!(c.image_ids, ids(&["b", "a"]));
    assert_eq!(c.cover_image_id, Some("a".to_string()));
}

#[test]
fn remove_unknown_image_is_refused() {
    let mut c = collection(1, Some("a"), &["a", "b"]);
    let r = c.remove_image("x".to_string()).map(|_| ());
    assert_eq!(r, Err("image not found".to_string()));
    assert_eq!(c, collection(1, Some("a"), &["a", "b"]));
}

#[test]
fn fix_cover_drops_a_dangling_cover() {
    let mut c = collection(1, Some("gone"), &["a", "b"]);
    c.fix_cover();
    assert_eq!(c.cover_image_id, Some("a".to_string()));
    assert_eq!(c.image_ids, ids(&["a", "b"]));
}

#[test]
fn fix_cover_clears_the_cover_of_an_empty_collection() {
    let mut c = collection(1, Some("gone"), &[]);
    c.fix_cover();
    assert_eq!(c.cover_image_id, None);
}

#[test]
fn fix_cover_sets_a_missing_cover() {
    let mut c = collection(1, None, &["x", "y"]);
    c.fix_cover();
    assert_eq!(c.cover_image_id, Some("x".to_string()));
}

#[test]
fn fix_cover_keeps_a_valid_cover() {
    let mut c = collection(1, Some("y"), &["x", "y"]);
    c.fix_cover();
    assert_eq!(c, collection(1, Some("y"), &["x", "y"]));
}

#[test]
fn get_images_twice_is_the_same() {
    let c = collection(1, Some("y"), &["x", "y"]);
    let first = c.get_images().clone();
    let second = c.get_images().clone();
    assert_eq!(first, second);
    assert_eq!(first, ids(&["x", "y"]));
}

#[test]
fn position_of_finds_the_first() {
    let list = ids(&["a", "b", "a"]);
    assert_eq!(position_of(&list, &"a".to_string()), Some(0));
    assert_eq!(position_of(&list, &"b".to_string()), Some(1));
    assert_eq!(position_of(&list, &"c".to_string()), None);
}

#[test]
fn invariant_holds_after_each_operation() {
    let mut c = SkuImage::new(5);
    assert!(holds_invariant(&c));
    let a = c.add_image_with_token("a".to_string(), "png".to_string());
    assert!(holds_invariant(&c));
    let b = c.add_image_with_token("b".to_string(), "png".to_string());
    assert!(holds_invariant(&c));
    let _ = c.set_cover(b.clone()).map(|_| ());
    assert!(holds_invariant(&c));
    let _ = c.set_cover("nothing".to_string()).map(|_| ());
    assert!(holds_invariant(&c));
    let _ = c.swap_images(0, 1).map(|_| ());
    assert!(holds_invariant(&c));
    let _ = c.remove_image(b).map(|_| ());
    assert!(holds_invariant(&c));
    assert_eq!(c.cover_image_id, Some(a.clone()));
    let _ = c.remove_image(a).map(|_| ());
    assert!(holds_invariant(&c));
    assert_eq!(c.cover_image_id, None);
}
