use yaiko::time::Duration;

fn fixed3(secs: u64, nanos: u64) -> String {
    let d = Duration::from_secs(secs).saturating_add(Duration::from_nanos(nanos));
    let mut s = String::new();
    d.push_secs_fixed3(&mut s);
    s
}

fn reference(secs: u64, nanos: u32) -> String {
    format!("{:.3}", std::time::Duration::new(secs, nanos).as_secs_f64())
}

#[test]
fn three_decimals_round_as_the_float_does() {
    assert_eq!(fixed3(0, 62_500_000), "0.062");
    assert_eq!(fixed3(0, 187_500_000), "0.188");
    assert_eq!(fixed3(1, 500_000), "1.000");
    assert_eq!(fixed3(0, 500_000), "0.001");
    assert_eq!(fixed3(12, 345_000_000), "12.345");
    assert_eq!(fixed3(0, 0), "0.000");
}

#[test]
fn three_decimals_agree_with_as_secs_f64_formatting() {
    let secs: [u64; 12] = [0, 1, 2, 3, 7, 59, 1_000, 86_399, 1 << 40, (1 << 53) - 1, (1 << 53) + 1, u64::MAX];
    let mut nanos: Vec<u32> = vec![0, 1, 499_999, 500_000, 500_001, 62_500_000, 999_999_999, 999_500_000, 125_000_000, 1_000_500];
    let mut x: u64 = 0x9E37_79B9_7F4A_7C15;
    for _ in 0..200 {
        x = x.wrapping_mul(6364136223846793005).wrapping_add(1442695040888963407);
        nanos.push(((x >> 33) % 1_000_000_000) as u32);
        nanos.push((((x >> 20) % 2_000) * 500_000) as u32);
    }
    for &s in secs.iter() {
        for &n in nanos.iter() {
            assert_eq!(fixed3(s, n as u64), reference(s, n), "secs {s} nanos {n}");
        }
    }
}

fn plain(secs: u64, nanos: u64) -> String {
    let d = Duration::from_secs(secs).saturating_add(Duration::from_nanos(nanos));
    let mut s = String::new();
    d.push_secs_plain(&mut s);
    s
}

#[test]
fn plain_seconds_are_written_as_the_float_is() {
    assert_eq!(plain(1, 239_000_000), "1.2389999999999999");
    assert_eq!(plain(4, 534_040_970), "4.5340409699999995");
    assert_eq!(plain(12, 0), "12");
    assert_eq!(plain(0, 500_000_000), "0.5");
    for (s, n) in [(0u64, 1u32), (3, 141_592_653), (86_400, 0), (u64::MAX, 999_999_999)] {
        assert_eq!(plain(s, n as u64), std::time::Duration::new(s, n).as_secs_f64().to_string());
    }
}
