use keytool::bink::{Bink, Keys, Point, Product};
use keytool::crypto::{Field, KeyError, KeyRequest, KeyTool};
use keytool::gen::KeyGen;
use keytool::verdict::{hit, judge, BinkMatch, Decoded, ProductKey, ProductKey1998, ProductKey2002};
use num_bigint::BigInt;
use std::collections::HashMap;

fn curve() -> Bink {
    Bink {
        p: BigInt::from(23u32),
        a: BigInt::from(1u32),
        b: BigInt::from(0u32),
        g: Point { x: BigInt::from(9u32), y: BigInt::from(5u32) },
        public: Point { x: BigInt::from(11u32), y: BigInt::from(10u32) },
        n: BigInt::from(29u32),
        private: BigInt::from(7u32),
    }
}

fn keys() -> Keys {
    let mut bink = HashMap::new();
    for id in [0x02u8, 0x2C, 0x2E, 0x2F, 0x5A, 0x5B] {
        bink.insert(id, curve());
    }
    Keys {
        products: vec![
            Product { name: "Windows XP Pro VLK".to_string(), bink_ids: vec![0x2E, 0x2F] },
            Product { name: "Office 2000".to_string(), bink_ids: vec![0x02] },
            Product { name: "Windows Server 2003".to_string(), bink_ids: vec![0x5A, 0x5B] },
            Product { name: "Windows XP Home".to_string(), bink_ids: vec![0x2C, 0x2E] },
        ],
        bink,
    }
}

fn tool() -> KeyTool {
    KeyTool::new(keys()).unwrap()
}

fn older(channel_id: u32, sequence: u32) -> ProductKey1998 {
    ProductKey1998::from_fields(false, channel_id, sequence, 123_456_789, 987_654_321_012)
}

fn later(channel_id: u32) -> ProductKey2002 {
    ProductKey2002::from_fields(true, channel_id, 55, 66, 77)
}

/// What reading a key gives that holds under the curve `good` alone.
fn outcomes_for(tool: &KeyTool, good: u8, decoded: &Decoded) -> Vec<Vec<Decoded>> {
    tool.sorted_products()
        .iter()
        .map(|p| {
            p.bink_ids
                .iter()
                .map(|id| if *id == good { copy(decoded) } else { Decoded::Failed })
                .collect()
        })
        .collect()
}

fn copy(decoded: &Decoded) -> Decoded {
    match decoded {
        Decoded::Failed => Decoded::Failed,
        Decoded::Bink1998(key) => Decoded::Bink1998(key.clone()),
        Decoded::Bink2002(key) => Decoded::Bink2002(key.clone()),
    }
}

fn all_failed(tool: &KeyTool) -> Vec<Vec<Decoded>> {
    outcomes_for(tool, 0xFF, &Decoded::Failed)
}

fn listed(name: &str, bink_id: u8) -> BinkMatch {
    BinkMatch { name: name.to_string(), bink_id }
}

#[test]
fn fields_are_written_in_decimal() {
    let key = ProductKey1998::from_fields(true, 640, 123_456, 4_294_967_295, u64::MAX);
    assert!(key.upgrade);
    assert_eq!(key.channel_id, "640");
    assert_eq!(key.sequence, "123456");
    assert_eq!(key.hash, "4294967295");
    assert_eq!(key.signature, "18446744073709551615");
    let key = ProductKey2002::from_fields(false, 0, 1, 2, 3);
    assert!(!key.upgrade);
    assert_eq!(key.channel_id, "0");
    assert_eq!(key.hash, "1");
    assert_eq!(key.signature, "2");
    assert_eq!(key.auth_info, "3");
}

#[test]
fn clone_keeps_the_fields() {
    let key = older(640, 7);
    assert_eq!(key.clone(), key);
    let key = later(640);
    assert_eq!(key.clone(), key);
}

#[test]
fn hit_needs_the_scheme_of_the_curve() {
    assert!(hit(0x2E, &Decoded::Bink1998(older(1, 2))));
    assert!(hit(0x3F, &Decoded::Bink1998(older(1, 2))));
    assert!(!hit(0x40, &Decoded::Bink1998(older(1, 2))));
    assert!(hit(0x40, &Decoded::Bink2002(later(1))));
    assert!(!hit(0x3F, &Decoded::Bink2002(later(1))));
    assert!(!hit(0x2E, &Decoded::Failed));
    assert!(!hit(0x5A, &Decoded::Failed));
}

/// A reader under which every attempt fails.
fn no_key(_: &Bink, _: u8, _: &str) -> Decoded {
    Decoded::Failed
}

#[test]
fn empty_vs_invalid() {
    let tool = tool();
    assert_eq!(tool.validate_key("", no_key), ProductKey::Empty);
    assert_eq!(tool.validate_key("not-a-real-key", no_key), ProductKey::Invalid);
}

#[test]
fn empty_is_not_tried() {
    let tool = tool();
    let calls = std::cell::Cell::new(0u32);
    let reader = |_: &Bink, _: u8, _: &str| {
        calls.set(calls.get() + 1);
        Decoded::Bink1998(older(1, 1))
    };
    assert_eq!(tool.validate_key("", &reader), ProductKey::Empty);
    assert_eq!(calls.get(), 0);
}

#[test]
fn white_space_alone_is_not_empty() {
    let tool = tool();
    assert_eq!(tool.validate_key("   ", no_key), ProductKey::Invalid);
}

#[test]
fn every_curve_of_every_product_is_tried_in_order() {
    let tool = tool();
    let tried = std::cell::RefCell::new(Vec::new());
    let reader = |_: &Bink, id: u8, text: &str| {
        tried.borrow_mut().push((id, text.to_string()));
        Decoded::Failed
    };
    assert_eq!(tool.validate_key("  KEY-1 \n", &reader), ProductKey::Invalid);
    let expected: Vec<(u8, String)> = [0x02u8, 0x5A, 0x5B, 0x2C, 0x2E, 0x2E, 0x2F]
        .iter()
        .map(|id| (*id, "KEY-1".to_string()))
        .collect();
    assert_eq!(*tried.borrow(), expected);
}

#[test]
fn each_curve_is_handed_over_with_its_id() {
    let mut bink = HashMap::new();
    for id in [0x01u8, 0x02, 0x41] {
        let mut params = curve();
        params.p = BigInt::from(1000u32 + u32::from(id));
        bink.insert(id, params);
    }
    let keys = Keys {
        products: vec![
            Product { name: "B".to_string(), bink_ids: vec![0x41, 0x01] },
            Product { name: "A".to_string(), bink_ids: vec![0x02] },
        ],
        bink,
    };
    let tool = KeyTool::new(keys).unwrap();
    let reader = |bink: &Bink, id: u8, _: &str| {
        assert_eq!(bink.p, BigInt::from(1000u32 + u32::from(id)));
        Decoded::Failed
    };
    assert_eq!(tool.validate_key("KEY", reader), ProductKey::Invalid);
}

#[test]
fn key_of_the_older_scheme_lists_every_product_of_its_curve() {
    let tool = tool();
    let reader = |_: &Bink, id: u8, _: &str| {
        if id == 0x2E {
            Decoded::Bink1998(older(640, 123_456))
        } else {
            Decoded::Failed
        }
    };
    assert_eq!(
        tool.validate_key("KEY", reader),
        ProductKey::Bink1998 {
            key: older(640, 123_456),
            bink_ids: vec![listed("Windows XP Home", 0x2E), listed("Windows XP Pro VLK", 0x2E)],
        }
    );
}

#[test]
fn key_of_the_later_scheme() {
    let tool = tool();
    let reader = |_: &Bink, id: u8, _: &str| {
        if id == 0x5B {
            Decoded::Bink2002(later(641))
        } else {
            Decoded::Failed
        }
    };
    assert_eq!(
        tool.validate_key("KEY", reader),
        ProductKey::Bink2002 {
            key: later(641),
            bink_ids: vec![listed("Windows Server 2003", 0x5B)],
        }
    );
}

#[test]
fn round_trip_of_the_fields() {
    let tool = tool();
    // A signer and a reader that stand for the curve arithmetic: the key is
    // the request written down, and it reads under the curve it was made for.
    let signer = |_: &Bink, request: KeyRequest| {
        Some(format!(
            "{}-{}-{}-{}",
            request.bink_id,
            request.channel_id,
            request.sequence.unwrap_or(0),
            request.upgrade.unwrap_or(false)
        ))
    };
    let reader = |_: &Bink, id: u8, text: &str| {
        let parts: Vec<&str> = text.split('-').collect();
        if parts.len() == 4 && parts[0] == id.to_string() {
            Decoded::Bink1998(ProductKey1998::from_fields(
                parts[3] == "true",
                parts[1].parse().unwrap(),
                parts[2].parse().unwrap(),
                1,
                2,
            ))
        } else {
            Decoded::Failed
        }
    };
    let key = tool.gen_key(0x2E, "640", "123456", true, signer).unwrap();
    match tool.validate_key(&key, reader) {
        ProductKey::Bink1998 { key, bink_ids } => {
            assert!(key.upgrade);
            assert_eq!(key.channel_id, "640");
            assert_eq!(key.sequence, "123456");
            assert_eq!(
                bink_ids,
                vec![listed("Windows XP Home", 0x2E), listed("Windows XP Pro VLK", 0x2E)]
            );
        }
        other => panic!("unexpected verdict {:?}", other),
    }
    assert_eq!(
        tool.gen_key(0x2E, "1000", "123456", true, signer),
        Err(KeyError::Range(Field::ChannelId))
    );
}

#[test]
fn older_scheme_wins_over_the_later() {
    let tool = tool();
    let reader = |_: &Bink, id: u8, _: &str| match id {
        0x5A => Decoded::Bink2002(later(5)),
        0x2C => Decoded::Bink1998(older(1, 2)),
        _ => Decoded::Failed,
    };
    assert_eq!(
        tool.validate_key("KEY", reader),
        ProductKey::Bink1998 {
            key: older(1, 2),
            bink_ids: vec![listed("Windows Server 2003", 0x5A), listed("Windows XP Home", 0x2C)],
        }
    );
}

#[test]
fn last_hit_gives_the_fields_and_the_curve() {
    let tool = tool();
    // Office 2000 [02], Windows Server 2003 [5A, 5B], Windows XP Home [2C, 2E],
    // Windows XP Pro VLK [2E, 2F]
    let reader = |_: &Bink, id: u8, _: &str| match id {
        0x02 => Decoded::Bink1998(older(1, 1)),
        0x2C => Decoded::Bink1998(older(2, 2)),
        0x2E => Decoded::Bink1998(older(3, 3)),
        0x2F => Decoded::Bink1998(older(4, 4)),
        _ => Decoded::Failed,
    };
    assert_eq!(
        tool.validate_key("KEY", reader),
        ProductKey::Bink1998 {
            key: older(4, 4),
            bink_ids: vec![
                listed("Office 2000", 0x02),
                listed("Windows XP Home", 0x2E),
                listed("Windows XP Pro VLK", 0x2F),
            ],
        }
    );
}

#[test]
fn outcome_of_the_other_scheme_is_no_hit() {
    let tool = tool();
    let reader = |_: &Bink, id: u8, _: &str| {
        if id < 0x40 {
            Decoded::Bink2002(later(1))
        } else {
            Decoded::Bink1998(older(1, 1))
        }
    };
    assert_eq!(tool.validate_key("KEY", reader), ProductKey::Invalid);
}

#[test]
fn sweep_covers_the_catalogue() {
    let tool = tool();
    let outcomes = tool.sweep("KEY", &|_: &Bink, id: u8, _: &str| {
        if id == 0x2E {
            Decoded::Bink1998(older(7, 8))
        } else {
            Decoded::Failed
        }
    });
    assert_eq!(
        outcomes,
        vec![
            vec![Decoded::Failed],
            vec![Decoded::Failed, Decoded::Failed],
            vec![Decoded::Failed, Decoded::Bink1998(older(7, 8))],
            vec![Decoded::Bink1998(older(7, 8)), Decoded::Failed],
        ]
    );
}

#[test]
fn outcomes_must_cover_every_curve() {
    let tool = tool();
    let products = tool.sorted_products();
    assert_eq!(judge(products, &Vec::new()), None);
    let mut short = all_failed(&tool);
    short.pop();
    assert_eq!(judge(products, &short), None);
    let mut long = all_failed(&tool);
    long.push(Vec::new());
    assert_eq!(judge(products, &long), None);
    let mut ragged = all_failed(&tool);
    ragged[1].pop();
    assert_eq!(judge(products, &ragged), None);
    let mut ragged = all_failed(&tool);
    ragged[3].push(Decoded::Bink1998(older(1, 1)));
    assert_eq!(judge(products, &ragged), None);
    assert_eq!(judge(products, &all_failed(&tool)), Some(ProductKey::Invalid));
}

#[test]
fn judge_takes_the_last_hit_of_each_product() {
    let tool = tool();
    let outcomes = vec![
        vec![Decoded::Bink1998(older(1, 1))],
        vec![Decoded::Failed, Decoded::Failed],
        vec![Decoded::Bink1998(older(2, 2)), Decoded::Bink1998(older(3, 3))],
        vec![Decoded::Bink1998(older(4, 4)), Decoded::Failed],
    ];
    assert_eq!(
        judge(tool.sorted_products(), &outcomes),
        Some(ProductKey::Bink1998 {
            key: older(4, 4),
            bink_ids: vec![
                listed("Office 2000", 0x02),
                listed("Windows XP Home", 0x2E),
                listed("Windows XP Pro VLK", 0x2E),
            ],
        })
    );
}

#[test]
fn judge_lets_the_older_scheme_win() {
    let tool = tool();
    let outcomes = vec![
        vec![Decoded::Failed],
        vec![Decoded::Bink2002(later(5)), Decoded::Bink2002(later(6))],
        vec![Decoded::Bink1998(older(1, 2)), Decoded::Failed],
        vec![Decoded::Failed, Decoded::Failed],
    ];
    assert_eq!(
        judge(tool.sorted_products(), &outcomes),
        Some(ProductKey::Bink1998 {
            key: older(1, 2),
            bink_ids: vec![listed("Windows Server 2003", 0x5B), listed("Windows XP Home", 0x2C)],
        })
    );
    let outcomes = vec![
        vec![Decoded::Failed],
        vec![Decoded::Bink2002(later(5)), Decoded::Bink2002(later(6))],
        vec![Decoded::Failed, Decoded::Failed],
        vec![Decoded::Failed, Decoded::Failed],
    ];
    assert_eq!(
        judge(tool.sorted_products(), &outcomes),
        Some(ProductKey::Bink2002 {
            key: later(6),
            bink_ids: vec![listed("Windows Server 2003", 0x5B)],
        })
    );
}

#[test]
fn catalogue_without_products_knows_no_key() {
    let tool = KeyTool::new(Keys { products: Vec::new(), bink: HashMap::new() }).unwrap();
    assert_eq!(tool.validate_key("KEY", no_key), ProductKey::Invalid);
    assert_eq!(tool.validate_key("", no_key), ProductKey::Empty);
}

#[test]
fn product_without_curves_is_never_listed() {
    let mut bink = HashMap::new();
    bink.insert(0x01u8, curve());
    let keys = Keys {
        products: vec![
            Product { name: "A".to_string(), bink_ids: Vec::new() },
            Product { name: "B".to_string(), bink_ids: vec![0x01] },
        ],
        bink,
    };
    let tool = KeyTool::new(keys).unwrap();
    assert_eq!(
        tool.validate_key("KEY", |_: &Bink, _: u8, _: &str| Decoded::Bink1998(older(9, 9))),
        ProductKey::Bink1998 { key: older(9, 9), bink_ids: vec![listed("B", 0x01)] }
    );
}

#[test]
fn judge_on_plain_products() {
    let products = vec![
        Product { name: "A".to_string(), bink_ids: vec![0x10, 0x50] },
        Product { name: "B".to_string(), bink_ids: vec![0x50] },
    ];
    let outcomes = vec![
        vec![Decoded::Failed, Decoded::Bink2002(later(3))],
        vec![Decoded::Bink2002(later(3))],
    ];
    assert_eq!(
        judge(&products, &outcomes),
        Some(ProductKey::Bink2002 {
            key: later(3),
            bink_ids: vec![listed("A", 0x50), listed("B", 0x50)],
        })
    );
    assert_eq!(judge(&products, &vec![Vec::new()]), None);
}

#[test]
fn key_generator_asks_for_a_key_by_channel_alone() {
    let keygen = KeyGen::new(keys()).unwrap();
    let signer = |_: &Bink, request: KeyRequest| {
        Some(format!(
            "{:02X}/{:?}/{}/{:?}/{:?}",
            request.bink_id, request.scheme, request.channel_id, request.sequence, request.upgrade
        ))
    };
    assert_eq!(keygen.gen_key(0x2E, "640", signer), Ok("2E/Bink1998/640/None/None".to_string()));
    assert_eq!(keygen.gen_key(0x5A, "1", signer), Ok("5A/Bink2002/1/None/None".to_string()));
    assert_eq!(keygen.gen_key(0x2E, "1000", signer), Err(KeyError::Range(Field::ChannelId)));
    assert_eq!(keygen.gen_key(0x2E, "abc", signer), Err(KeyError::Parse(Field::ChannelId)));
    assert_eq!(keygen.gen_key(0x01, "1", signer), Err(KeyError::NotFound));
    assert_eq!(
        keygen.gen_key(0x2E, "1", |_: &Bink, _: KeyRequest| None),
        Err(KeyError::Signer)
    );
}

#[test]
fn key_generator_sorts_and_judges() {
    let keygen = KeyGen::new(keys()).unwrap();
    let names: Vec<&str> = keygen.sorted_products().iter().map(|p| p.name.as_str()).collect();
    assert_eq!(
        names,
        vec!["Office 2000", "Windows Server 2003", "Windows XP Home", "Windows XP Pro VLK"]
    );
    assert_eq!(keygen.validate_key("", no_key), ProductKey::Invalid);
    let tried = std::cell::RefCell::new(Vec::new());
    let reader = |_: &Bink, id: u8, text: &str| {
        tried.borrow_mut().push((id, text.to_string()));
        if id == 0x02 {
            Decoded::Bink1998(older(5, 6))
        } else {
            Decoded::Failed
        }
    };
    assert_eq!(
        keygen.validate_key(" KEY ", &reader),
        ProductKey::Bink1998 { key: older(5, 6), bink_ids: vec![listed("Office 2000", 0x02)] }
    );
    assert_eq!(tried.borrow().len(), 7);
    assert!(tried.borrow().iter().all(|(_, text)| text == " KEY "));
    assert_eq!(
        KeyGen::get_confirmation_id("12-34", |digits: &str| Ok::<String, String>(digits.to_string())),
        Ok("1234".to_string())
    );
}

#[test]
fn key_generator_refuses_what_the_key_tool_refuses() {
    let mut broken = keys();
    broken.products.push(Product { name: "Office 2000".to_string(), bink_ids: vec![0x02] });
    assert!(KeyGen::new(broken).is_err());
    let mut broken = keys();
    broken.products.push(Product { name: "Other".to_string(), bink_ids: vec![0x77] });
    assert!(KeyGen::new(broken).is_err());
}

#[test]
fn match_labels() {
    assert_eq!(listed("Windows XP Pro VLK", 0x2E).label(), "Windows XP Pro VLK (BINK: 2E)");
    assert_eq!(listed("Office 2000", 0x02).label(), "Office 2000 (BINK: 02)");
    assert_eq!(listed("", 0xFF).label(), " (BINK: FF)");
}
