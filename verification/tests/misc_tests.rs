use tick_core::decoder::PacketDecoder;
use tick_core::net::{length_prefixed, offline_uuid, CapacityError, Encoder, Fd, ServerEvent};
use tick_core::ore::{
    group, is_adjacent, pick_given_ore, pick_given_ore_from_roll, pick_ore, pick_ore_from_roll,
    BlockKind, Pos3,
};
use tick_core::sim::{ChatCooldown, Group, Hand, InteractEvent, PendingRemove, Vanished};
use tick_core::skin::{skin_from_properties, PlayerSkin, SkinError, SkinProperty};

#[test]
fn encoder_appends_frames_the_decoder_reads_back() {
    let mut enc = Encoder::new(1024);
    enc.append(0x42, &[1, 2, 3]).unwrap();
    enc.append(0x07, &[]).unwrap();
    let mut dec = PacketDecoder::default();
    dec.queue_slice(enc.buf());
    let f = dec.try_next_packet().unwrap().unwrap();
    assert_eq!((f.id, f.body.as_slice()), (0x42, &[1u8, 2, 3][..]));
    let g = dec.try_next_packet().unwrap().unwrap();
    assert_eq!((g.id, g.body.len()), (0x07, 0));
    enc.clear();
    assert_eq!(enc.buf().len(), 0);
}

#[test]
fn encoder_rejects_appends_past_its_limit() {
    let mut enc = Encoder::new(4);
    assert_eq!(enc.append_raw(&[1, 2, 3]), Ok(()));
    assert_eq!(enc.append_raw(&[4, 5]), Err(CapacityError));
    assert_eq!(enc.buf().as_slice(), &[1, 2, 3]);
    assert_eq!(enc.append(0x10, &[9, 9, 9]), Err(CapacityError));
    assert_eq!(enc.buf().as_slice(), &[1, 2, 3]);
}

#[test]
fn length_prefix_is_big_endian_u64() {
    let framed = length_prefixed(&[1, 2, 3]);
    assert_eq!(framed, vec![0, 0, 0, 0, 0, 0, 0, 3, 1, 2, 3]);
    let framed = length_prefixed(&[0xAA; 256]);
    assert_eq!(&framed[..8], &[0, 0, 0, 0, 0, 0, 1, 0]);
    assert_eq!(framed.len(), 264);
}

#[test]
fn offline_uuid_is_digest_prefix() {
    let id = offline_uuid("Notch");
    let expect = <sha2::Sha256 as sha2::Digest>::digest("Notch".as_bytes());
    assert_eq!(id.as_slice(), &expect.as_slice()[..16]);
    assert_eq!(id.len(), 16);
    // distinct names give distinct ids
    assert_ne!(offline_uuid("alpha"), offline_uuid("beta"));
}

#[test]
fn fd_is_hashable_and_comparable() {
    let a = Fd(3);
    let b = Fd(3);
    let c = Fd(4);
    assert_eq!(a, b);
    assert_ne!(a, c);
    let e = ServerEvent::RecvData { fd: c, data: vec![1] };
    match e {
        ServerEvent::RecvData { fd, data } => {
            assert_eq!(fd, Fd(4));
            assert_eq!(data, vec![1]);
        }
        _ => panic!("wrong event"),
    }
}

fn prop(name: &str, value: &str, signature: Option<&str>) -> SkinProperty {
    SkinProperty {
        name: name.to_string(),
        value: value.to_string(),
        signature: signature.map(|s| s.to_string()),
    }
}

#[test]
fn skin_selection_takes_the_textures_property() {
    let props = vec![
        prop("cape", "AAAA", Some("BBBB")),
        prop("textures", "c2tpbg==", Some("c2ln")),
    ];
    let skin = skin_from_properties(props).unwrap().unwrap();
    assert_eq!(skin.textures, "c2tpbg==");
    assert_eq!(skin.signature, "c2ln");
}

#[test]
fn skin_selection_without_textures_finds_nothing() {
    let props = vec![prop("cape", "AAAA", Some("BBBB"))];
    assert!(skin_from_properties(props).unwrap().is_none());
    assert!(skin_from_properties(Vec::new()).unwrap().is_none());
}

#[test]
fn skin_selection_rejects_bad_properties() {
    let missing = vec![prop("textures", "c2tpbg==", None)];
    assert!(matches!(
        skin_from_properties(missing),
        Err(SkinError::MissingSignature)
    ));
    let bad_value = vec![prop("textures", "not base64!!", Some("c2ln"))];
    assert!(matches!(
        skin_from_properties(bad_value),
        Err(SkinError::InvalidTexture)
    ));
    let bad_sig = vec![prop("textures", "c2tpbg==", Some("???"))];
    assert!(matches!(
        skin_from_properties(bad_sig),
        Err(SkinError::InvalidSignature)
    ));
}

#[test]
fn skin_new_keeps_fields() {
    let skin = PlayerSkin::new("a".to_string(), "b".to_string());
    assert_eq!(skin.textures, "a");
    assert_eq!(skin.signature, "b");
}

#[test]
fn ore_table_boundaries() {
    assert_eq!(pick_ore_from_roll(0), BlockKind::CoalOre);
    assert_eq!(pick_ore_from_roll(15), BlockKind::CoalOre);
    assert_eq!(pick_ore_from_roll(16), BlockKind::CopperOre);
    assert_eq!(pick_ore_from_roll(23), BlockKind::CopperOre);
    assert_eq!(pick_ore_from_roll(24), BlockKind::IronOre);
    assert_eq!(pick_ore_from_roll(27), BlockKind::IronOre);
    assert_eq!(pick_ore_from_roll(28), BlockKind::GoldOre);
    assert_eq!(pick_ore_from_roll(29), BlockKind::GoldOre);
    assert_eq!(pick_ore_from_roll(30), BlockKind::EmeraldOre);
}

#[test]
fn vein_roll_boundaries() {
    let ore = BlockKind::GoldOre;
    assert_eq!(pick_given_ore_from_roll(ore, 0), BlockKind::Stone);
    assert_eq!(pick_given_ore_from_roll(ore, 4), BlockKind::Stone);
    assert_eq!(pick_given_ore_from_roll(ore, 5), BlockKind::Cobblestone);
    assert_eq!(pick_given_ore_from_roll(ore, 7), BlockKind::Cobblestone);
    assert_eq!(pick_given_ore_from_roll(ore, 8), BlockKind::GoldOre);
    assert_eq!(pick_given_ore_from_roll(ore, 9), BlockKind::GoldOre);
}

#[test]
fn random_picks_stay_in_their_tables() {
    for _ in 0..200 {
        let ore = pick_ore();
        assert!(matches!(
            ore,
            BlockKind::CoalOre
                | BlockKind::CopperOre
                | BlockKind::IronOre
                | BlockKind::GoldOre
                | BlockKind::EmeraldOre
        ));
        let block = pick_given_ore(BlockKind::IronOre);
        assert!(matches!(
            block,
            BlockKind::Stone | BlockKind::Cobblestone | BlockKind::IronOre
        ));
    }
}

fn p3(x: i32, y: i32, z: i32) -> Pos3 {
    Pos3 { x, y, z }
}

#[test]
fn adjacency_is_one_step_along_one_axis() {
    assert!(is_adjacent(p3(0, 0, 0), p3(1, 0, 0)));
    assert!(is_adjacent(p3(0, 0, 0), p3(0, -1, 0)));
    assert!(!is_adjacent(p3(0, 0, 0), p3(1, 1, 0)));
    assert!(!is_adjacent(p3(0, 0, 0), p3(0, 0, 0)));
    assert!(!is_adjacent(p3(0, 0, 0), p3(2, 0, 0)));
}

#[test]
fn grouping_splits_disconnected_veins() {
    let positions = vec![
        p3(0, 0, 0),
        p3(1, 0, 0),
        p3(2, 0, 0),
        p3(10, 10, 10),
        p3(10, 11, 10),
        p3(-5, 0, 0),
    ];
    let groups = group(&positions);
    let mut sizes: Vec<usize> = groups.iter().map(|g| g.len()).collect();
    sizes.sort_unstable();
    assert_eq!(sizes, vec![1, 2, 3]);
    let total: usize = groups.iter().map(|g| g.len()).sum();
    assert_eq!(total, positions.len());
    for g in &groups {
        for p in g {
            assert!(positions.contains(p));
        }
    }
}

#[test]
fn grouping_of_nothing_is_nothing() {
    let groups = group(&Vec::new());
    assert!(groups.is_empty());
}

#[test]
fn simulation_types_hold_their_values() {
    assert_eq!(Group::default(), Group::Normal);
    assert_eq!(ChatCooldown::default().expires, 0);
    assert!(Vanished::new(true).is_vanished());
    assert!(!Vanished::default().is_vanished());
    let pr = PendingRemove::new("disconnected".to_string());
    assert_eq!(pr.reason, "disconnected");
    let ev = InteractEvent { hand: Hand::Main, sequence: 9 };
    assert_eq!(ev.hand, Hand::Main);
    assert_eq!(ev.sequence, 9);
}
