use rt_one::color::{
    decode_rgb8, encode_rgb8, gamma_decode_rgb8, gamma_encode_rgb8, LinearColor, RGB8_STEP,
};
use rt_one::fixed::SCALE;

#[test]
fn encode_exact_values() {
    assert_eq!(encode_rgb8(0), 0);
    assert_eq!(encode_rgb8(SCALE), 255);
    assert_eq!(encode_rgb8(SCALE / 2), 128);
    // Out-of-range intensities clamp.
    assert_eq!(encode_rgb8(-5), 0);
    assert_eq!(encode_rgb8(2 * SCALE), 255);
}

#[test]
fn decode_exact_values() {
    assert_eq!(decode_rgb8(0), 0);
    assert_eq!(decode_rgb8(255), SCALE);
    assert_eq!(decode_rgb8(128), 501_961);
}

#[test]
fn round_trip_stays_within_one_step() {
    let mut c: i64 = 0;
    while c <= SCALE {
        let back = decode_rgb8(encode_rgb8(c));
        assert!((back - c).abs() <= RGB8_STEP, "channel {c} came back as {back}");
        c += 1;
    }
}

#[test]
fn gamma_round_trip_stays_within_one_step() {
    assert_eq!(gamma_encode_rgb8(0), 0);
    assert_eq!(gamma_encode_rgb8(SCALE), 255);
    let mut c: i64 = 0;
    while c <= SCALE {
        let back = gamma_decode_rgb8(gamma_encode_rgb8(c));
        assert!((back - c).abs() <= RGB8_STEP, "channel {c} came back as {back}");
        c += 97;
    }
    // The brightest channels, densely: rounding is hardest near full scale.
    let mut c: i64 = SCALE - 20_000;
    while c <= SCALE {
        let back = gamma_decode_rgb8(gamma_encode_rgb8(c));
        assert!((back - c).abs() <= RGB8_STEP, "channel {c} came back as {back}");
        c += 1;
    }
}

#[test]
fn mix_hits_its_endpoints_exactly() {
    let white = LinearColor { r: SCALE, g: SCALE, b: SCALE };
    let blue = LinearColor { r: 500_000, g: 700_000, b: SCALE };
    assert_eq!(white.mix(blue, 0), white);
    assert_eq!(white.mix(blue, SCALE), blue);
    assert_eq!(white.mix(blue, SCALE / 2), LinearColor { r: 750_000, g: 850_000, b: SCALE });
}

#[test]
fn attenuation_multiplies_channelwise() {
    let half = LinearColor { r: 500_000, g: 500_000, b: 500_000 };
    let tint = LinearColor { r: 800_000, g: 600_000, b: 200_000 };
    assert_eq!(half.mul(tint), LinearColor { r: 400_000, g: 300_000, b: 100_000 });
    let black = LinearColor { r: 0, g: 0, b: 0 };
    assert_eq!(tint.mul(black), black);
}
