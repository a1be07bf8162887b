use asset_registry::codec::SNAPSHOT_VERSION;
use asset_registry::record::{Identity, Key, Mode};
use asset_registry::registry::Registry;

fn ident(s: &str) -> Identity {
    Identity::new(String::from(s))
}

#[test]
fn roundtrip_sequential_registry() {
    let mut reg = Registry::new(Mode::Sequential);
    let mut meta: Vec<(String, String)> = Vec::new();
    meta.push((String::from("k"), String::from("v")));
    let k0 = reg
        .mint(
            &ident("alice"),
            None,
            String::from("first"),
            String::from("d0"),
            String::from("i0"),
            meta,
        )
        .unwrap();
    let k1 = reg
        .mint(
            &ident("bob"),
            None,
            String::from("second"),
            String::from("d1"),
            String::from("i1"),
            Vec::new(),
        )
        .unwrap();
    reg.transfer(&ident("alice"), &k0, &ident("bob")).unwrap();

    let blob = reg.save();
    let back = Registry::restore(&blob).expect("a saved blob restores");

    // the allocator continues from the same counter value
    assert_eq!(back.mode(), Mode::Sequential);
    assert_eq!(back.counter(), reg.counter());
    // the record store comes back equal
    let before = reg.list_all();
    let after = back.list_all();
    assert_eq!(before.len(), after.len());
    for (a, b) in before.iter().zip(after.iter()) {
        assert!(a.key.same_as(&b.key));
        assert_eq!(a.name, b.name);
        assert_eq!(a.description, b.description);
        assert_eq!(a.image_ref, b.image_ref);
        assert!(a.owner.same_as(&b.owner));
        assert_eq!(a.metadata, b.metadata);
    }
    // the owner index comes back equal
    for who in ["alice", "bob"] {
        let x = reg.list_owned(&ident(who));
        let y = back.list_owned(&ident(who));
        assert_eq!(x.len(), y.len());
        for (a, b) in x.iter().zip(y.iter()) {
            assert!(a.key.same_as(&b.key));
        }
    }
    let _ = k1;
}

#[test]
fn roundtrip_hash_registry_with_unicode() {
    let mut reg = Registry::new(Mode::Hash);
    let mut meta: Vec<(String, String)> = Vec::new();
    meta.push((String::from("artist"), String::from("Dvo\u{159}\u{e1}k")));
    reg.mint(
        &ident("caf\u{e9}-owner"),
        Some(Key::Hash(String::from("\u{1f3b5}-hash"))),
        String::from("\u{10348} name"),
        String::from("non-ascii \u{2603}"),
        String::from("ipfs://\u{e9}"),
        meta,
    )
    .unwrap();

    let blob = reg.save();
    let back = Registry::restore(&blob).expect("a saved blob restores");
    let all = back.list_all();
    assert_eq!(all.len(), 1);
    let rec = &all[0];
    assert!(rec.key.same_as(&Key::Hash(String::from("\u{1f3b5}-hash"))));
    assert_eq!(rec.name, "\u{10348} name");
    assert_eq!(rec.description, "non-ascii \u{2603}");
    assert_eq!(rec.image_ref, "ipfs://\u{e9}");
    assert!(rec.owner.same_as(&ident("caf\u{e9}-owner")));
    assert_eq!(rec.metadata[0].1, "Dvo\u{159}\u{e1}k");
}

#[test]
fn roundtrip_empty_registry() {
    let reg = Registry::new(Mode::Hash);
    let blob = reg.save();
    let back = Registry::restore(&blob).expect("an empty registry restores");
    assert_eq!(back.mode(), Mode::Hash);
    assert_eq!(back.list_all().len(), 0);
}

#[test]
fn restore_rejects_empty_blob() {
    let blob: Vec<u8> = Vec::new();
    assert!(Registry::restore(&blob).is_none());
}

#[test]
fn restore_rejects_wrong_version() {
    let reg = Registry::new(Mode::Sequential);
    let mut blob = reg.save();
    blob[0] = SNAPSHOT_VERSION + 1;
    assert!(Registry::restore(&blob).is_none());
}

#[test]
fn restore_rejects_truncated_blob() {
    let mut reg = Registry::new(Mode::Sequential);
    reg.mint(
        &ident("alice"),
        None,
        String::from("name"),
        String::from("desc"),
        String::from("img"),
        Vec::new(),
    )
    .unwrap();
    let blob = reg.save();
    let cut: Vec<u8> = blob[..blob.len() - 1].to_vec();
    assert!(Registry::restore(&cut).is_none());
}

#[test]
fn restore_rejects_trailing_garbage() {
    let reg = Registry::new(Mode::Sequential);
    let mut blob = reg.save();
    blob.push(0u8);
    assert!(Registry::restore(&blob).is_none());
}

#[test]
fn restore_rejects_invalid_utf8() {
    let mut reg = Registry::new(Mode::Hash);
    reg.mint(
        &ident("alice"),
        Some(Key::Hash(String::from("abcd"))),
        String::from("n"),
        String::from("d"),
        String::from("i"),
        Vec::new(),
    )
    .unwrap();
    let mut blob = reg.save();
    // the first byte of the key string sits after the version and mode
    // bytes, the record count, the key tag, and the string length
    let offset = 2 + 8 + 1 + 8;
    assert_eq!(blob[offset], b'a');
    blob[offset] = 0xFF;
    assert!(Registry::restore(&blob).is_none());
}

#[test]
fn restore_rejects_unknown_mode() {
    let reg = Registry::new(Mode::Sequential);
    let mut blob = reg.save();
    blob[1] = 9;
    assert!(Registry::restore(&blob).is_none());
}

#[test]
fn snapshot_then_mutate_then_snapshot_differ() {
    let mut reg = Registry::new(Mode::Sequential);
    let blob1 = reg.save();
    reg.mint(
        &ident("alice"),
        None,
        String::from("n"),
        String::from("d"),
        String::from("i"),
        Vec::new(),
    )
    .unwrap();
    let blob2 = reg.save();
    assert_ne!(blob1, blob2);
}
