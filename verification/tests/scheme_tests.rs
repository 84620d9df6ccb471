use keytool::scheme::{scheme_for, Scheme, FIRST_BINK2002_ID};

#[test]
fn scheme_boundary() {
    assert_eq!(scheme_for(0x3F), Scheme::Bink1998);
    assert_eq!(scheme_for(0x40), Scheme::Bink2002);
}

#[test]
fn scheme_extremes() {
    assert_eq!(scheme_for(0x00), Scheme::Bink1998);
    assert_eq!(scheme_for(0xFF), Scheme::Bink2002);
}

#[test]
fn scheme_threshold_constant() {
    assert_eq!(FIRST_BINK2002_ID, 0x40);
    assert_eq!(scheme_for(FIRST_BINK2002_ID - 1), Scheme::Bink1998);
    assert_eq!(scheme_for(FIRST_BINK2002_ID), Scheme::Bink2002);
}

#[test]
fn scheme_of_every_id() {
    for id in 0u8..=255 {
        let expected = if id < 0x40 { Scheme::Bink1998 } else { Scheme::Bink2002 };
        assert_eq!(scheme_for(id), expected);
    }
}
