use tethermoon::autofocus::UNIT;
use tethermoon::body::{af_calib, af_point, AfCalib, BodyProfile, BulbEncoding, FLEXIBLE_SPOT_S};

#[test]
fn a7c_profile_values() {
    let p = BodyProfile::for_model("ILCE-7C");
    assert_eq!(p.bulb, BulbEncoding::ShutterZero);
    assert_eq!(p.af_calib.x_max, 639);
    assert_eq!(p.af_calib.x(UNIT / 2), 320);
    assert_eq!(p.af_calib.y(0), 0);
    assert_eq!(p.af_calib.y(UNIT), 479);
    assert!(
        p.af_calib.y(UNIT / 4) > 140,
        "S-curve deviates from linear: {}",
        p.af_calib.y(UNIT / 4)
    );
}

#[test]
fn unknown_body_degrades_linear() {
    let p = BodyProfile::for_model("ILCE-9999");
    assert!(p.af_calib.y_cal.is_empty());
    assert_eq!(p.af_calib.y(UNIT / 2), 240);
}

#[test]
fn coordinates_on_the_curve() {
    let p = BodyProfile::for_model("ilce-7c");
    assert_eq!(p.model, "ilce-7c");
    // A quarter of the way from 28 to 297 is 95.25: between 66 and 162, that is
    // 120 + 120 * 29.25 / 96 = 156.5625.
    assert_eq!(p.af_calib.y(UNIT / 4), 157);
    // Half of the way is 162.5: between 162 and 256, that is 240 + 119 * 0.5 / 94.
    assert_eq!(p.af_calib.y(UNIT / 2), 241);
    // Outside the frame counts as its edge.
    assert_eq!(p.af_calib.y(-5), 0);
    assert_eq!(p.af_calib.y(2 * UNIT), 479);
    assert_eq!(p.af_calib.x(-5), 0);
    assert_eq!(p.af_calib.x(2 * UNIT), 639);
}

#[test]
fn down_never_goes_up() {
    let c = af_calib("ILCE-7C");
    let mut last = 0;
    for i in 0..=1000 {
        let y = c.y(i * (UNIT / 1000));
        assert!(y >= last);
        last = y;
    }
    assert_eq!(last, 479);
}

#[test]
fn table_of_two_is_a_line() {
    let c = AfCalib { x_max: 10, y_max: 10, y_cal: vec![(100, 0), (200, 10)] };
    assert_eq!(c.y(0), 100);
    assert_eq!(c.y(UNIT / 2), 150);
    assert_eq!(c.y(UNIT), 200);
}

#[test]
fn focus_is_placed() {
    let p = af_point("ILCE-7C", UNIT / 2, UNIT, Some(0x12));
    assert_eq!(p.area, 0x12);
    assert_eq!(p.position, (320 << 16) | 479);
    for a in [0x02, 0x04, 0x08, 0x14, 0x1A] {
        assert_eq!(af_point("x", 0, 0, Some(a)).area, a);
    }
    for a in [0x00, 0x01, 0x03, 0x09, 0x13, 0x1B] {
        assert_eq!(af_point("x", 0, 0, Some(a)).area, FLEXIBLE_SPOT_S);
    }
    let q = af_point("other", UNIT, UNIT / 2, None);
    assert_eq!(q.area, FLEXIBLE_SPOT_S);
    assert_eq!((q.position >> 16, q.position & 0xFFFF), (639, 240));
}
