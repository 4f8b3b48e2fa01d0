//! Tests of the registry: tagging, untagging, garbage collection,
//! listing, color updates, and the binary round trip.

use wutag::registry::{EntryData, RegistryError, TagRegistry};
use wutag::tag::{Color, Tag};

fn default_colors() -> Vec<Color> {
    vec![
        Color::Black,
        Color::Red,
        Color::Green,
        Color::Yellow,
        Color::Blue,
        Color::Magenta,
        Color::Cyan,
        Color::White,
    ]
}

#[test]
fn adds_and_tags_entry() {
    let entry = EntryData::new("/tmp");
    let mut registry = TagRegistry::default();
    registry.add_or_update_entry(entry.clone());
    let id = registry.find_entry("/tmp").unwrap();

    let got = registry.get_entry(id).unwrap();
    assert_eq!(got.path(), entry.path());

    let tag = Tag::random("test", &default_colors());
    let second = Tag::random("second", &default_colors());

    assert_eq!(registry.tag_entry(&tag, id), None);
    assert_eq!(registry.list_entry_tags(id), Some(vec![tag.clone()]));
    assert_eq!(registry.tag_entry(&second, id), None);
    assert!(registry.list_entry_tags(id).unwrap().contains(&tag));
    assert!(registry.list_entry_tags(id).unwrap().contains(&second));
    assert_eq!(registry.untag_entry(&tag, id), None);
    assert_eq!(registry.list_entry_tags(id), Some(vec![second.clone()]));
    assert_eq!(registry.untag_entry(&tag, id), None);
    assert_eq!(registry.untag_entry(&second, id), Some(entry));
    assert_eq!(registry.list_entry_tags(id), None);
}

#[test]
fn adds_multiple_entries() {
    let mut registry = TagRegistry::default();

    let entry = EntryData::new("/tmp");
    let fst_id = registry.add_or_update_entry(entry.clone());
    let snd_entry = EntryData::new("/tmp/123");
    let snd_id = registry.add_or_update_entry(snd_entry.clone());

    assert_eq!(registry.list_entries().len(), 2);

    let entries = registry.list_entries_and_ids();
    assert!(entries.contains(&(fst_id, entry)));
    assert!(entries.contains(&(snd_id, snd_entry)));
}

#[test]
fn updates_tag_color() {
    let entry = EntryData::new("/tmp");

    let mut registry = TagRegistry::default();
    let id = registry.add_or_update_entry(entry);

    let tag = Tag::new("test", Color::Black);

    assert!(registry.tag_entry(&tag, id).is_none());
    assert!(registry.update_tag_color("test", Color::Red));
    assert_eq!(registry.list_tags().first().unwrap().color(), &Color::Red);
}

#[test]
fn removes_an_entry_when_no_tags_left() {
    let entry = EntryData::new("/tmp");

    let mut registry = TagRegistry::default();
    let id = registry.add_or_update_entry(entry.clone());

    let tag1 = Tag::new("test", Color::Black);
    let tag2 = Tag::new("test2", Color::Red);

    assert!(registry.tag_entry(&tag1, id).is_none());
    assert_eq!(registry.list_tags(), vec![tag1.clone()]);
    assert_eq!(
        registry.list_entries_with_tags(&vec!["test".to_string()]),
        vec![id]
    );
    assert_eq!(registry.list_entries().len(), 1);
    assert_eq!(registry.untag_entry(&tag1, id), Some(entry.clone()));
    assert_eq!(registry.list_entries().len(), 0);
    assert!(registry.list_tags().is_empty());

    let id = registry.add_or_update_entry(entry.clone());
    assert!(registry.tag_entry(&tag2, id).is_none());
    assert_eq!(registry.list_tags(), vec![tag2.clone()]);
    assert_eq!(
        registry.list_entries_with_tags(&vec!["test2".to_string()]),
        vec![id]
    );
    assert_eq!(registry.list_entries().len(), 1);
    assert_eq!(registry.untag_by_name(tag2.name(), id), Some(entry.clone()));
    assert_eq!(registry.list_entries().len(), 0);
    assert!(registry.list_tags().is_empty());

    let id = registry.add_or_update_entry(entry);
    assert!(registry.tag_entry(&tag1, id).is_none());
    assert!(registry.tag_entry(&tag2, id).is_none());
    let tags = registry.list_tags();
    assert!(tags.contains(&tag1));
    assert!(tags.contains(&tag2));
    assert_eq!(
        registry.list_entries_with_tags(&vec!["test".to_string()]),
        vec![id]
    );
    assert_eq!(
        registry.list_entries_with_tags(&vec!["test2".to_string()]),
        vec![id]
    );
    assert_eq!(registry.list_entries().len(), 1);
    registry.clear_entry(id);
    assert_eq!(registry.list_entries().len(), 0);
    assert!(registry.list_tags().is_empty());
}

#[test]
fn lists_entry_tags() {
    let mut registry = TagRegistry::default();

    let tag1 = Tag::new("src", Color::Black);
    let tag2 = Tag::new("code", Color::Red);

    let entry = EntryData::new("/tmp");

    let id = registry.add_or_update_entry(entry);
    registry.tag_entry(&tag1, id);
    registry.tag_entry(&tag2, id);

    let tags = registry.list_entry_tags(id).unwrap();
    assert_eq!(tags.len(), 2);
    assert!(tags.contains(&tag1));
    assert!(tags.contains(&tag2));
}

#[test]
fn lists_entries_with_tags() {
    let mut registry = TagRegistry::default();

    let tag1 = Tag::new("src", Color::Black);
    let tag2 = Tag::new("code", Color::Red);

    let entry = EntryData::new("/tmp");
    let entry1 = EntryData::new("/tmp/1");
    let entry2 = EntryData::new("/tmp/2");
    let entry3 = EntryData::new("/tmp/3");

    let id = registry.add_or_update_entry(entry);
    let id1 = registry.add_or_update_entry(entry1);
    let id2 = registry.add_or_update_entry(entry2);
    let id3 = registry.add_or_update_entry(entry3);

    registry.tag_entry(&tag1, id);
    registry.tag_entry(&tag1, id2);

    registry.tag_entry(&tag2, id1);
    registry.tag_entry(&tag2, id3);

    let entries1 = registry.list_entries_with_tags(&vec![tag1.name().to_string()]);
    assert_eq!(entries1.len(), 2);
    assert!(entries1.contains(&id));
    assert!(entries1.contains(&id2));

    let entries2 = registry.list_entries_with_tags(&vec![tag2.name().to_string()]);
    assert_eq!(entries2.len(), 2);
    assert!(entries2.contains(&id1));
    assert!(entries2.contains(&id3));

    let entries = registry
        .list_entries_with_tags(&vec![tag2.name().to_string(), tag1.name().to_string()]);
    assert_eq!(entries.len(), 4);
    assert!(entries.contains(&id));
    assert!(entries.contains(&id1));
    assert!(entries.contains(&id2));
    assert!(entries.contains(&id3));
}

#[test]
fn saves_and_loads() {
    let mut registry = TagRegistry::new("wutag.registry");

    let tag = Tag::new("src", Color::Black);
    let entry = EntryData::new("/tmp");

    let id = registry.add_or_update_entry(entry.clone());
    registry.tag_entry(&tag, id);

    let blob = registry.to_bytes();
    let registry = TagRegistry::from_bytes(&blob).unwrap();

    let entries = registry.list_entries_and_ids();
    assert_eq!(entries.len(), 1);
    assert_eq!(entries[0].0, id);
    assert_eq!(entries[0].1, entry);
    assert_eq!(
        registry.list_entries_with_tags(&vec![tag.name().to_string()]),
        vec![id]
    );
}

#[test]
fn round_trip_keeps_colors_and_state() {
    let mut registry = TagRegistry::new("some/dir/wutag.registry");
    let id_a = registry.add_or_update_entry(EntryData::new("/tmp/a"));
    let id_b = registry.add_or_update_entry(EntryData::new("/tmp/b"));
    registry.tag_entry(&Tag::new("work", Color::Rgb(1, 2, 250)), id_a);
    registry.tag_entry(&Tag::new("work", Color::Rgb(1, 2, 250)), id_b);
    registry.tag_entry(&Tag::new("play", Color::BrightCyan), id_b);

    let blob = registry.to_bytes();
    let loaded = TagRegistry::from_bytes(&blob).unwrap();

    assert_eq!(loaded.get_tag("work").unwrap().color(), &Color::Rgb(1, 2, 250));
    assert_eq!(loaded.get_tag("play").unwrap().color(), &Color::BrightCyan);
    assert_eq!(
        loaded.list_entries_with_tags(&vec!["work".to_string()]),
        vec![id_a, id_b]
    );
    assert_eq!(
        loaded.list_entries_with_tags(&vec!["play".to_string()]),
        vec![id_b]
    );
    assert_eq!(loaded.get_entry(id_a).unwrap().path(), "/tmp/a");
    assert_eq!(loaded.get_entry(id_b).unwrap().path(), "/tmp/b");
    // saving the loaded registry gives the same blob again
    assert_eq!(loaded.to_bytes(), blob);
}

#[test]
fn rejects_corrupt_blobs() {
    assert!(matches!(
        TagRegistry::from_bytes(&vec![]),
        Err(RegistryError::CorruptData)
    ));
    assert!(matches!(
        TagRegistry::from_bytes(&vec![1, 2, 3]),
        Err(RegistryError::CorruptData)
    ));
    let mut registry = TagRegistry::new("r");
    let id = registry.add_or_update_entry(EntryData::new("/tmp/x"));
    registry.tag_entry(&Tag::new("t", Color::Blue), id);
    let mut blob = registry.to_bytes();
    // a truncated blob no longer decodes
    blob.pop();
    assert!(matches!(
        TagRegistry::from_bytes(&blob),
        Err(RegistryError::CorruptData)
    ));
    // trailing garbage is refused too
    let mut blob2 = registry.to_bytes();
    blob2.push(0);
    assert!(matches!(
        TagRegistry::from_bytes(&blob2),
        Err(RegistryError::CorruptData)
    ));
}

#[test]
fn rejects_text_that_is_not_utf8() {
    let registry = TagRegistry::new("ab");
    let mut blob = registry.to_bytes();
    // the two bytes of the stored path follow its eight-byte length
    assert_eq!(blob[0], 2);
    blob[8] = 0xFF;
    blob[9] = 0xFF;
    assert!(matches!(
        TagRegistry::from_bytes(&blob),
        Err(RegistryError::CorruptData)
    ));
}

#[test]
fn union_listing_is_deduplicated() {
    // entries /tmp/1 /tmp/2 /tmp/3; "src" on 1 and 2; "docs" on 3
    let mut registry = TagRegistry::default();
    let id1 = registry.add_or_update_entry(EntryData::new("/tmp/1"));
    let id2 = registry.add_or_update_entry(EntryData::new("/tmp/2"));
    let id3 = registry.add_or_update_entry(EntryData::new("/tmp/3"));
    let src = Tag::new("src", Color::Green);
    let docs = Tag::new("docs", Color::Yellow);
    registry.tag_entry(&src, id1);
    registry.tag_entry(&src, id2);
    registry.tag_entry(&docs, id3);

    let only_src = registry.list_entries_with_tags(&vec!["src".to_string()]);
    assert_eq!(only_src, vec![id1, id2]);

    let both = registry.list_entries_with_tags(&vec!["src".to_string(), "docs".to_string()]);
    assert_eq!(both, vec![id1, id2, id3]);

    // asking twice for the same tag adds nothing new
    let twice = registry.list_entries_with_tags(&vec!["src".to_string(), "src".to_string()]);
    assert_eq!(twice, vec![id1, id2]);

    // unknown names contribute nothing
    let none = registry.list_entries_with_tags(&vec!["nope".to_string()]);
    assert!(none.is_empty());
}

#[test]
fn tagging_is_idempotent() {
    let mut registry = TagRegistry::default();
    let id = registry.add_or_update_entry(EntryData::new("/tmp/a"));
    let x = Tag::new("x", Color::Cyan);
    assert_eq!(registry.tag_entry(&x, id), None);
    assert_eq!(registry.tag_entry(&x, id), Some(id));
    assert_eq!(registry.list_entry_tags(id), Some(vec![x.clone()]));
    assert_eq!(registry.list_entries_with_tags(&vec!["x".to_string()]), vec![id]);
}

#[test]
fn untagging_last_tag_drops_entry_and_fresh_id_differs() {
    let mut registry = TagRegistry::default();
    let id = registry.add_or_update_entry(EntryData::new("/tmp/a"));
    let x = Tag::new("x", Color::Cyan);
    assert_eq!(registry.tag_entry(&x, id), None);
    let removed = registry.untag_entry(&x, id).unwrap();
    assert_eq!(removed.path(), "/tmp/a");
    assert!(registry.get_entry(id).is_none());
    assert!(registry.get_tag("x").is_none());

    let fresh = registry.add_or_update_entry(EntryData::new("/tmp/a"));
    assert_ne!(fresh, id);
}

#[test]
fn stable_id_for_known_path() {
    let mut registry = TagRegistry::default();
    let id = registry.add_or_update_entry(EntryData::new("/tmp/a"));
    let again = registry.add_or_update_entry(EntryData::new("/tmp/a"));
    assert_eq!(id, again);
    assert_eq!(registry.list_entries().len(), 1);
}

#[test]
fn update_tag_color_on_missing_tag_changes_nothing() {
    let mut registry = TagRegistry::default();
    let id = registry.add_or_update_entry(EntryData::new("/tmp/a"));
    registry.tag_entry(&Tag::new("x", Color::Black), id);
    let before = registry.to_bytes();
    assert!(!registry.update_tag_color("nonexistent", Color::Red));
    assert_eq!(registry.to_bytes(), before);
    assert!(registry.get_tag("nonexistent").is_none());
}

#[test]
fn update_tag_color_keeps_associations() {
    let mut registry = TagRegistry::default();
    let id = registry.add_or_update_entry(EntryData::new("/tmp/a"));
    registry.tag_entry(&Tag::new("x", Color::Black), id);
    let before = registry.list_entries_with_tags(&vec!["x".to_string()]);
    assert!(registry.update_tag_color("x", Color::Rgb(9, 9, 9)));
    assert_eq!(registry.get_tag("x").unwrap().color(), &Color::Rgb(9, 9, 9));
    assert_eq!(registry.list_entries_with_tags(&vec!["x".to_string()]), before);
}

#[test]
fn clear_drops_everything_but_keeps_path() {
    let mut registry = TagRegistry::new("the/path");
    let id = registry.add_or_update_entry(EntryData::new("/tmp/a"));
    registry.tag_entry(&Tag::new("x", Color::Black), id);
    registry.clear();
    assert!(registry.list_tags().is_empty());
    assert!(registry.list_entries_ids().is_empty());
}

#[test]
fn random_tag_color_comes_from_the_given_set() {
    let colors = vec![Color::Red, Color::Green];
    for _ in 0..16 {
        let t = Tag::random("pick", &colors);
        assert_eq!(t.name(), "pick");
        assert!(colors.contains(t.color()));
    }
}

#[test]
fn tag_identity_ignores_color() {
    let a = Tag::new("same", Color::Red);
    let b = Tag::new("same", Color::Blue);
    assert_eq!(a, b);
    let mut registry = TagRegistry::default();
    let id = registry.add_or_update_entry(EntryData::new("/tmp/a"));
    assert_eq!(registry.tag_entry(&a, id), None);
    // the second tag is the same key, so this reports "already tagged"
    assert_eq!(registry.tag_entry(&b, id), Some(id));
    // and the stored color is still the first one
    assert_eq!(registry.get_tag("same").unwrap().color(), &Color::Red);
}
