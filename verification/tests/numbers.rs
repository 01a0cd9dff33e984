use traffic_stats::calendar::{local_month, zone, Zone, EARLIEST, LATEST, WIDEST_OFFSET};
use traffic_stats::casts::{i64_as_u32, i64_as_u64, u32_as_i32, u64_as_i64, u64_as_u32};
use traffic_stats::db_url;
use traffic_stats::lark::{encode_tid, KIND_HYSTERIA, KIND_XRAY};

#[test]
fn casts_keep_the_low_bits() {
    assert_eq!(u64_as_i64(0), 0);
    assert_eq!(u64_as_i64(9_223_372_036_854_775_807), i64::MAX);
    assert_eq!(u64_as_i64(9_223_372_036_854_775_808), i64::MIN);
    assert_eq!(u64_as_i64(u64::MAX), -1);
    assert_eq!(i64_as_u64(-1), u64::MAX);
    assert_eq!(i64_as_u64(i64::MIN), 9_223_372_036_854_775_808);
    assert_eq!(u32_as_i32(2_147_483_648), i32::MIN);
    assert_eq!(u32_as_i32(u32::MAX), -1);
    assert_eq!(i64_as_u32(-1), u32::MAX);
    assert_eq!(i64_as_u32(4_294_967_301), 5);
    assert_eq!(u64_as_u32(4_294_967_297), 1);
}

#[test]
fn stored_numbers_are_read_back() {
    for x in [0u64, 1, 9_223_372_036_854_775_807, 9_223_372_036_854_775_808, u64::MAX] {
        assert_eq!(i64_as_u64(u64_as_i64(x)), x);
    }
    for x in [0u32, 1, 2_147_483_647, 2_147_483_648, u32::MAX] {
        assert_eq!(i64_as_u32(i64::from(u32_as_i32(x))), x);
    }
}

#[test]
fn identifiers_hold_user_and_kind() {
    assert_eq!(encode_tid(0, KIND_XRAY), 0);
    assert_eq!(encode_tid(0, KIND_HYSTERIA), 1);
    assert_eq!(encode_tid(1, KIND_XRAY), 256);
    assert_eq!(encode_tid(1000, KIND_HYSTERIA), 256_001);
    assert_eq!(encode_tid(u32::MAX, u8::MAX), 1_099_511_627_775);
}

#[test]
fn identifiers_differ() {
    let mut seen: Vec<u64> = Vec::new();
    for uid in [0u32, 1, 255, 256, u32::MAX] {
        for kind in [KIND_XRAY, KIND_HYSTERIA, 255] {
            let tid: u64 = encode_tid(uid, kind);
            assert!(!seen.contains(&tid));
            seen.push(tid);
        }
    }
}

#[test]
fn months_by_the_calendar() {
    assert_eq!(local_month(0, 0), Some(1));
    assert_eq!(local_month(-1, 0), Some(12));
    assert_eq!(local_month(0, -1), Some(12));
    // The end of 2024-02-29.
    assert_eq!(local_month(1_709_251_199, 0), Some(2));
    assert_eq!(local_month(1_709_251_200, 0), Some(3));
    assert_eq!(local_month(1_709_251_199, 1), Some(3));
    assert_eq!(local_month(1_709_251_199, 28_800), Some(3));
    assert_eq!(local_month(1_709_251_200, -28_800), Some(2));
    // 2023-11-14.
    assert_eq!(local_month(1_700_000_000, 0), Some(11));
}

#[test]
fn months_of_whole_years() {
    let years: [(i64, bool); 8] = [
        // 1970-01-01, 1972, 1900, 2000, 2023, 2024, 0000 and -0001.
        (0, false),
        (63_072_000, true),
        (-2_208_988_800, false),
        (946_684_800, true),
        (1_672_531_200, false),
        (1_704_067_200, true),
        (-62_167_219_200, true),
        (-62_198_755_200, false),
    ];
    for (start, leap) in years {
        let february: i64 = if leap { 29 } else { 28 };
        let lengths: [i64; 12] = [31, february, 31, 30, 31, 30, 31, 31, 30, 31, 30, 31];
        let mut first: i64 = start;
        let mut month: u8 = 1;
        for length in lengths {
            let next: i64 = first + length * 86_400;
            assert_eq!(local_month(first, 0), Some(month));
            assert_eq!(local_month(next - 1, 0), Some(month));
            assert_eq!(local_month(first - 50_000, 50_000), Some(month));
            assert_eq!(local_month(next + 50_000, -50_001), Some(month));
            first = next;
            month += 1;
        }
        assert_eq!(local_month(first, 0), Some(1));
        assert_eq!(local_month(start - 1, 0), Some(12));
    }
}

#[test]
fn months_at_the_ends_of_the_calendar() {
    assert_eq!(local_month(EARLIEST, 0), Some(1));
    assert_eq!(local_month(EARLIEST - 1, 0), None);
    assert_eq!(local_month(EARLIEST, -1), None);
    assert_eq!(local_month(EARLIEST, 1), Some(1));
    assert_eq!(local_month(LATEST, 0), Some(12));
    assert_eq!(local_month(LATEST + 1, 0), None);
    assert_eq!(local_month(LATEST, 1), None);
    assert_eq!(local_month(LATEST, -1), Some(12));
    assert_eq!(local_month(i64::MIN, 0), None);
    assert_eq!(local_month(i64::MAX, i32::MAX), None);
}

#[test]
fn months_at_the_widest_offsets() {
    assert_eq!(local_month(0, WIDEST_OFFSET), Some(1));
    assert_eq!(local_month(0, -WIDEST_OFFSET), Some(12));
    assert_eq!(local_month(0, WIDEST_OFFSET + 1), None);
    assert_eq!(local_month(0, -WIDEST_OFFSET - 1), None);
    assert_eq!(local_month(EARLIEST, WIDEST_OFFSET), Some(1));
    assert_eq!(local_month(LATEST, -WIDEST_OFFSET), Some(12));
}

#[test]
fn zones_of_hours_minutes_and_seconds() {
    assert_eq!(zone(None), Zone::Local);
    assert_eq!(zone(Some((0, 0, 0))), Zone::Fixed(0));
    assert_eq!(zone(Some((8, 0, 0))), Zone::Fixed(28_800));
    assert_eq!(zone(Some((-5, -30, 0))), Zone::Fixed(-19_800));
    assert_eq!(zone(Some((25, 59, 59))), Zone::Fixed(WIDEST_OFFSET));
    assert_eq!(zone(Some((-25, -59, -59))), Zone::Fixed(-WIDEST_OFFSET));
}

#[test]
fn the_first_part_of_a_zone_gives_the_sign() {
    assert_eq!(zone(Some((1, -2, -3))), Zone::Fixed(3_723));
    assert_eq!(zone(Some((-1, 2, 3))), Zone::Fixed(-3_723));
    assert_eq!(zone(Some((0, -2, 3))), Zone::Fixed(-123));
    assert_eq!(zone(Some((0, 2, -3))), Zone::Fixed(123));
    assert_eq!(zone(Some((0, 0, -3))), Zone::Fixed(-3));
}

#[test]
fn zones_out_of_range() {
    for tz in [(26i8, 0i8, 0i8), (-26, 0, 0), (0, 60, 0), (0, -60, 0), (0, 0, 60), (0, 0, -60)] {
        assert_eq!(zone(Some(tz)), Zone::Invalid);
    }
    assert_eq!(zone(Some((i8::MIN, i8::MIN, i8::MIN))), Zone::Invalid);
}

#[test]
fn database_address() {
    assert_eq!(db_url("traffic.db"), "sqlite://traffic.db");
    assert_eq!(db_url("/var/lib/traffic.db"), "sqlite:///var/lib/traffic.db");
    assert_eq!(db_url(""), "sqlite://");
}
