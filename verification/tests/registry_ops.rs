use asset_registry::record::{Error, Identity, Key, Mode};
use asset_registry::registry::Registry;

fn ident(s: &str) -> Identity {
    Identity::new(String::from(s))
}

fn mint_seq(reg: &mut Registry, who: &str, name: &str) -> Key {
    reg.mint(
        &ident(who),
        None,
        String::from(name),
        String::from("desc"),
        String::from("img"),
        Vec::new(),
    )
    .expect("sequential mint always succeeds")
}

#[test]
fn sequential_mint_keys_increasing() {
    let mut reg = Registry::new(Mode::Sequential);
    let mut keys: Vec<u64> = Vec::new();
    for i in 0..5 {
        let k = mint_seq(&mut reg, "alice", &format!("nft-{}", i));
        match k {
            Key::Id(n) => keys.push(n),
            Key::Hash(_) => panic!("sequential mint must issue numeric keys"),
        }
    }
    assert_eq!(keys, vec![0, 1, 2, 3, 4]);
    for i in 0..keys.len() {
        for j in (i + 1)..keys.len() {
            assert!(keys[i] < keys[j]);
        }
    }
    assert_eq!(reg.counter(), 5);
}

#[test]
fn first_sequential_key_is_zero() {
    let mut reg = Registry::new(Mode::Sequential);
    let k = mint_seq(&mut reg, "alice", "first");
    assert!(k.same_as(&Key::Id(0)));
}

#[test]
fn hash_mint_duplicate_rejected() {
    let mut reg = Registry::new(Mode::Hash);
    let k = Key::Hash(String::from("deadbeef"));
    let r1 = reg.mint(
        &ident("alice"),
        Some(Key::Hash(String::from("deadbeef"))),
        String::from("original"),
        String::from("d1"),
        String::from("i1"),
        Vec::new(),
    );
    assert!(r1.is_ok());
    let r2 = reg.mint(
        &ident("bob"),
        Some(Key::Hash(String::from("deadbeef"))),
        String::from("impostor"),
        String::from("d2"),
        String::from("i2"),
        Vec::new(),
    );
    assert_eq!(r2.unwrap_err(), Error::AlreadyExists);
    // the first record is unmodified
    let rec = reg.get(&k).expect("the first record stays");
    assert_eq!(rec.name, "original");
    assert!(rec.owner.same_as(&ident("alice")));
    assert_eq!(reg.list_all().len(), 1);
}

#[test]
fn get_returns_full_copy() {
    let mut reg = Registry::new(Mode::Sequential);
    let mut meta: Vec<(String, String)> = Vec::new();
    meta.push((String::from("genre"), String::from("jazz")));
    meta.push((String::from("year"), String::from("1959")));
    let k = reg
        .mint(
            &ident("alice"),
            None,
            String::from("Blue"),
            String::from("a description"),
            String::from("ipfs://x"),
            meta,
        )
        .unwrap();
    let rec = reg.get(&k).expect("just minted");
    assert_eq!(rec.name, "Blue");
    assert_eq!(rec.description, "a description");
    assert_eq!(rec.image_ref, "ipfs://x");
    assert!(rec.owner.same_as(&ident("alice")));
    assert_eq!(rec.metadata.len(), 2);
    assert_eq!(rec.metadata[0].0, "genre");
    assert_eq!(rec.metadata[0].1, "jazz");
    assert_eq!(rec.metadata[1].0, "year");
    assert_eq!(rec.metadata[1].1, "1959");
}

#[test]
fn get_absent_key_is_none() {
    let reg = Registry::new(Mode::Sequential);
    assert!(reg.get(&Key::Id(0)).is_none());
    assert!(!reg.contains_key(&Key::Id(0)));
}

#[test]
fn contains_key_tracks_mints() {
    let mut reg = Registry::new(Mode::Hash);
    assert!(!reg.contains_key(&Key::Hash(String::from("h1"))));
    reg.mint(
        &ident("alice"),
        Some(Key::Hash(String::from("h1"))),
        String::from("n"),
        String::from("d"),
        String::from("i"),
        Vec::new(),
    )
    .unwrap();
    assert!(reg.contains_key(&Key::Hash(String::from("h1"))));
    assert!(!reg.contains_key(&Key::Hash(String::from("h2"))));
}

#[test]
fn transfer_not_found() {
    let mut reg = Registry::new(Mode::Sequential);
    let r = reg.transfer(&ident("alice"), &Key::Id(7), &ident("bob"));
    assert_eq!(r, Err(Error::NotFound));
}

#[test]
fn transfer_not_owner_leaves_state_unchanged() {
    let mut reg = Registry::new(Mode::Sequential);
    let k = mint_seq(&mut reg, "alice", "hers");
    let r = reg.transfer(&ident("mallory"), &k, &ident("bob"));
    assert_eq!(r, Err(Error::NotOwner));
    // record store unchanged
    let rec = reg.get(&k).unwrap();
    assert!(rec.owner.same_as(&ident("alice")));
    // owner index unchanged
    assert_eq!(reg.list_owned(&ident("alice")).len(), 1);
    assert_eq!(reg.list_owned(&ident("bob")).len(), 0);
    assert_eq!(reg.list_owned(&ident("mallory")).len(), 0);
}

#[test]
fn transfer_moves_ownership() {
    let mut reg = Registry::new(Mode::Sequential);
    let k = mint_seq(&mut reg, "alice", "gift");
    let r = reg.transfer(&ident("alice"), &k, &ident("bob"));
    assert_eq!(r, Ok(()));
    let rec = reg.get(&k).unwrap();
    assert!(rec.owner.same_as(&ident("bob")));
    assert_eq!(reg.list_owned(&ident("alice")).len(), 0);
    let bobs = reg.list_owned(&ident("bob"));
    assert_eq!(bobs.len(), 1);
    assert!(bobs[0].key.same_as(&k));
}

#[test]
fn transfer_to_self_keeps_record() {
    let mut reg = Registry::new(Mode::Sequential);
    let k = mint_seq(&mut reg, "alice", "keep");
    assert_eq!(reg.transfer(&ident("alice"), &k, &ident("alice")), Ok(()));
    let rec = reg.get(&k).unwrap();
    assert!(rec.owner.same_as(&ident("alice")));
    let mine = reg.list_owned(&ident("alice"));
    assert_eq!(mine.len(), 1);
    assert!(mine[0].key.same_as(&k));
}

#[test]
fn index_consistent_after_mixed_operations() {
    let mut reg = Registry::new(Mode::Sequential);
    let k0 = mint_seq(&mut reg, "alice", "a0");
    let k1 = mint_seq(&mut reg, "bob", "b0");
    let k2 = mint_seq(&mut reg, "alice", "a1");
    reg.transfer(&ident("alice"), &k0, &ident("bob")).unwrap();
    reg.transfer(&ident("bob"), &k1, &ident("carol")).unwrap();
    // every record's key appears exactly once, in its owner's listing only
    let all = reg.list_all();
    assert_eq!(all.len(), 3);
    for rec in &all {
        let owners = ["alice", "bob", "carol"];
        let mut seen = 0;
        for who in owners.iter() {
            let listed = reg.list_owned(&ident(who));
            let count = listed.iter().filter(|r| r.key.same_as(&rec.key)).count();
            if ident(who).same_as(&rec.owner) {
                assert_eq!(count, 1);
            } else {
                assert_eq!(count, 0);
            }
            seen += count;
        }
        assert_eq!(seen, 1);
    }
    let _ = k2;
}

#[test]
fn scenario_two_minters_one_transfer() {
    let mut reg = Registry::new(Mode::Sequential);
    let x = ident("identity-x");
    let y = ident("identity-y");
    let k0 = reg
        .mint(&x, None, String::from("A"), String::from("d"), String::from("i"), Vec::new())
        .unwrap();
    let k1 = reg
        .mint(&y, None, String::from("B"), String::from("d"), String::from("i"), Vec::new())
        .unwrap();
    assert!(!k0.same_as(&k1));
    let xs = reg.list_owned(&x);
    assert_eq!(xs.len(), 1);
    assert!(xs[0].key.same_as(&k0));
    assert_eq!(reg.transfer(&x, &k0, &y), Ok(()));
    assert_eq!(reg.list_owned(&x).len(), 0);
    let ys = reg.list_owned(&y);
    assert_eq!(ys.len(), 2);
    // append order: y's own mint first, then the transferred key
    assert!(ys[0].key.same_as(&k1));
    assert!(ys[1].key.same_as(&k0));
}

#[test]
fn list_all_returns_every_record() {
    let mut reg = Registry::new(Mode::Hash);
    for h in ["h1", "h2", "h3"] {
        reg.mint(
            &ident("alice"),
            Some(Key::Hash(String::from(h))),
            String::from(h),
            String::from("d"),
            String::from("i"),
            Vec::new(),
        )
        .unwrap();
    }
    let all = reg.list_all();
    assert_eq!(all.len(), 3);
    for h in ["h1", "h2", "h3"] {
        assert_eq!(all.iter().filter(|r| r.key.same_as(&Key::Hash(String::from(h)))).count(), 1);
    }
}

#[test]
fn list_owned_unknown_identity_is_empty() {
    let reg = Registry::new(Mode::Sequential);
    assert_eq!(reg.list_owned(&ident("nobody")).len(), 0);
}
