//! The time type: builder components, encoding, accessors, formatting
//! and arithmetic.

use timecalc::dec::Decimal;
use timecalc::time::Time;

#[test]
fn time_builder_seconds_only() {
        // 00:00:00
        assert_time(Time::builder().build(),
            0, 0, 0, 0, 0, 0, 0, "0s");
        assert_time(Time::builder().negative().build(),
            0, 0, 0, 0, 0, 0, 0, "0s");

        // +/- 00:00:01
        assert_time(Time::builder().seconds(1).build(),
            1, 0, 1, 0, 0, 1, 0, "1s");
        assert_time(Time::builder().negative().seconds(1).build(),
            -2, 1000000000, -1, 0, 0, 1, 0, "-1s");

        // +/- 00:01:00
        assert_time(Time::builder().minutes(1).build(),
            60, 0, 1, 0, 1, 0, 0, "01:00");
        assert_time(Time::builder().negative().minutes(1).build(),
            -61, 1000000000, -1, 0, 1, 0, 0, "-01:00");

        // +/- 01:00:00
        let seconds = 60 * 60;
        assert_time(Time::builder().hours(1).build(),
            seconds, 0, 1, 1, 0, 0, 0, "1:00:00");
        assert_time(Time::builder().negative().hours(1).build(),
            -seconds - 1, 1000000000, -1, 1, 0, 0, 0, "-1:00:00");

        // +/- 00:01:01
        assert_time(Time::builder().minutes(1).seconds(1).build(),
            61, 0, 1, 0, 1, 1, 0, "01:01");
        assert_time(Time::builder().negative().minutes(1).seconds(1).build(),
            -62, 1000000000, -1, 0, 1, 1, 0, "-01:01");

        // +/- 01:01:01
        let seconds = (60 * 60) + 60 + 1;
        assert_time(Time::builder().hours(1).minutes(1).seconds(1).build(),
             seconds, 0, 1, 1, 1, 1, 0, "1:01:01");
        assert_time(Time::builder().negative().hours(1).minutes(1).seconds(1).build(),
            -seconds - 1, 1000000000, -1, 1, 1, 1, 0, "-1:01:01");

        // +/- 00:00:59
        assert_time(Time::builder().seconds(59).build(),
            59, 0, 1, 0, 0, 59, 0, "59s");
        assert_time(Time::builder().negative().seconds(59).build(),
            -60, 1000000000, -1, 0, 0, 59, 0, "-59s");

        // +/- 00:59:59
        let seconds = (60 * 60) - 1;
        assert_time(Time::builder().minutes(59).seconds(59).build(),
            seconds, 0, 1, 0, 59, 59, 0, "59:59");
        assert_time(Time::builder().negative().minutes(59).seconds(59).build(),
            -seconds - 1, 1000000000, -1, 0, 59, 59, 0, "-59:59");
    }

#[test]
fn time_builder_nanos_only() {
        // +/- 0.000000001s
        assert_time(Time::builder().nanoseconds(1).build(),
            0, 1, 1, 0, 0, 0, 1, "0.000000001s");
        assert_time(Time::builder().negative().nanoseconds(1).build(),
            -1, 999999999, -1, 0, 0, 0, 1, "-0.000000001s");

        // +/- 0.999999999s
        assert_time(Time::builder().nanoseconds(999999999).build(),
            0, 999999999, 1, 0, 0, 0, 999999999, "0.999999999s");
        assert_time(Time::builder().negative().nanoseconds(999999999).build(),
            -1, 1, -1, 0, 0, 0, 999999999, "-0.999999999s");

        // +/- 0.123456789
        assert_time(Time::builder().nanoseconds(123456789).build(),
            0, 123456789, 1, 0, 0 ,0, 123456789, "0.123456789s");
        assert_time(Time::builder().negative().nanoseconds(123456789).build(),
            -1, 876543211, -1, 0, 0, 0, 123456789, "-0.123456789s");

        // +/- 0.987654321
        assert_time(Time::builder().nanoseconds(987654321).build(),
            0, 987654321, 1, 0, 0, 0, 987654321, "0.987654321s");
        assert_time(Time::builder().negative().nanoseconds(987654321).build(),
            -1, 12345679, -1, 0, 0, 0, 987654321, "-0.987654321s");

        // +/- 0.13579
        assert_time(Time::builder().nanoseconds(135790000).build(),
    0, 135790000, 1, 0, 0, 0, 135790000, "0.13579s");
        assert_time(Time::builder().negative().nanoseconds(135790000).build(),
    -1, 864210000, -1, 0, 0, 0, 135790000, "-0.13579s");

        // +/- 0.2468
        assert_time(Time::builder().nanoseconds(246800000).build(),
    0, 246800000, 1, 0, 0, 0, 246800000, "0.2468s");
        assert_time(Time::builder().negative().nanoseconds(246800000).build(),
    -1, 753200000, -1, 0, 0, 0, 246800000, "-0.2468s");
    }

#[test]
fn time_builder_seconds_and_nanos() {
        // +/- 00:00:01.000000001
        assert_time(Time::builder().seconds(1).nanoseconds(1).build(),
            1, 1, 1, 0, 0, 1, 1, "1.000000001s");
        assert_time(Time::builder().negative().seconds(1).nanoseconds(1).build(),
            -2, 999999999, -1, 0, 0, 1, 1, "-1.000000001s");

        // +/- 00:01:01.000000001
        assert_time(Time::builder().minutes(1).seconds(1).nanoseconds(1).build(),
            61, 1, 1, 0, 1, 1, 1, "01:01.000000001");
        assert_time(Time::builder().negative().minutes(1).seconds(1).nanoseconds(1).build(),
            -62, 999999999, -1, 0, 1, 1, 1, "-01:01.000000001");

        // +/- 01:01:01.000000001
        let seconds = (60 * 60) + 60 + 1;
        assert_time(Time::builder().hours(1).minutes(1).seconds(1).nanoseconds(1).build(),
            seconds, 1, 1, 1, 1, 1, 1, "1:01:01.000000001");
        assert_time(Time::builder().hours(1).negative().minutes(1).seconds(1).nanoseconds(1).build(),
            -seconds - 1, 999999999, -1, 1, 1, 1, 1, "-1:01:01.000000001");

        // +/- 00:00:59.999999999
        assert_time(Time::builder().seconds(59).nanoseconds(999999999).build(),
            59, 999999999, 1, 0, 0, 59, 999999999, "59.999999999s");
        assert_time(Time::builder().negative().seconds(59).nanoseconds(999999999).build(),
            -60, 1, -1, 0, 0, 59, 999999999, "-59.999999999s");

        // +/- 00:59:59.999999999
        let seconds = (60 * 60) - 1;
        assert_time(Time::builder().minutes(59).seconds(59).nanoseconds(999999999).build(),
            seconds, 999999999, 1, 0, 59, 59, 999999999, "59:59.999999999");
        assert_time(Time::builder().negative().minutes(59).seconds(59).nanoseconds(999999999).build(),
            -seconds - 1, 1, -1, 0, 59, 59, 999999999, "-59:59.999999999");

        // +/- 01:01:01.010101010
        let seconds = (60 * 60) + 60 + 1;
        assert_time(Time::builder().hours(1).minutes(1).seconds(1).nanoseconds(010101010).build(),
            seconds, 010101010, 1, 1, 1, 1, 010101010, "1:01:01.01010101");
        assert_time(Time::builder().negative().hours(1).minutes(1).seconds(1).nanoseconds(010101010).build(),
            -seconds - 1, 989898990, -1, 1, 1, 1, 010101010, "-1:01:01.01010101");
    }

#[test]
fn time_builder_min_max() {
        assert_time(Time::builder().hours(2562047788015215).minutes(30).seconds(7).nanoseconds(999999999).build(),
            i64::MAX, 999999999, 1, 2562047788015215, 30, 7, 999999999, "2562047788015215:30:07.999999999");
        assert_time(Time::builder().negative().hours(2562047788015215).minutes(30).seconds(7).nanoseconds(999999999).build(),
            i64::MIN, 1, -1, 2562047788015215, 30, 7, 999999999, "-2562047788015215:30:07.999999999");
    }

#[test]
fn add_sub_positive() {
        let zero = time(0, 0, 0, 0);

        // Nanoseconds.
        let _1ns = time(0, 0, 0, 1);
        let _200000000ns = time(0, 0, 0, 200000000);
        let _500000000ns = time(0, 0, 0, 500000000);
        let _800000000ns = time(0, 0, 0, 800000000);
        let _999999999ns = time(0, 0, 0, 999999999);

        // Seconds.
        let _1s = time(0, 0, 1, 0);
        let _2s = time(0, 0, 2, 0);
        let _3s = time(0, 0, 3, 0);
        let _10s = time(0, 0, 10, 0);
        let _12s = time(0, 0, 12, 0);
        let _34s = time(0, 0, 34, 0);
        let _59s = time(0, 0, 59, 0);

        // Minutes.
        let _1m = time(0, 1, 0, 0);
        let _2m = time(0, 2, 0, 0);
        let _3m = time(0, 3, 0, 0);
        let _15m = time(0, 15, 0, 0);
        let _37m = time(0, 37, 0, 0);
        let _59m = time(0, 59, 0, 0);

        // Hours.
        let _1h = time(1, 0, 0, 0);
        let _2h = time(2, 0, 0, 0);
        let _3h = time(3, 0, 0, 0);
        let _7h = time(7, 0, 0, 0);

        assert_eq!(zero.add(&zero), zero);
        assert_eq!(zero.sub(&zero), zero);

        // Add nanoseconds.
        assert_eq!(zero.add(&_1ns), _1ns);
        assert_eq!(_1ns.add(&zero), _1ns);
        assert_eq!(_1ns.add(&_999999999ns), _1s);
        assert_eq!(_200000000ns.add(&_800000000ns), _1s);
        assert_eq!(_500000000ns.add(&_800000000ns), time(0, 0, 1, 300000000));

        // Add seconds.
        assert_eq!(zero.add(&_1s), _1s);
        assert_eq!(_1s.add(&zero), _1s);
        assert_eq!(_1s.add(&_1s), _2s);
        assert_eq!(_1s.add(&_2s), _3s);
        assert_eq!(_2s.add(&_1s), _3s);
        assert_eq!(_1s.add(&_1s).add(&_1s), _3s);
        assert_eq!(_1s.add(&_1s).add(&_2s).add(&_3s).add(&_3s), _10s);
        assert_eq!(_59s.add(&_1s), _1m);
        assert_eq!(_12s.add(&_34s), time(0, 0, 46, 0));
        assert_eq!(_34s.add(&_34s), time(0, 1, 8, 0));

        // Add minutes.
        assert_eq!(zero.add(&_1m), _1m);
        assert_eq!(_1m.add(&zero), _1m);
        assert_eq!(_1m.add(&_1m), _2m);
        assert_eq!(_1m.add(&_2m), _3m);
        assert_eq!(_2m.add(&_1m), _3m);
        assert_eq!(_1m.add(&_1m).add(&_1m), _3m);
        assert_eq!(_59m.add(&_1m), _1h);
        assert_eq!(_15m.add(&_37m), time(0, 52, 0, 0));
        assert_eq!(_37m.add(&_37m), time(1, 14, 0, 0));

        // Add hours.
        assert_eq!(zero.add(&_1h), _1h);
        assert_eq!(_1h.add(&zero), _1h);
        assert_eq!(_1h.add(&_2h), _3h);
        assert_eq!(_2h.add(&_1h), _3h);
        assert_eq!(_1h.add(&_1h).add(&_1h), _3h);

        // Add seconds and nanos.
        assert_eq!(_59s.add(&_999999999ns).add(&_1ns), _1m);
        assert_eq!(_1s.add(&_200000000ns), time(0, 0, 1, 200000000));
        assert_eq!(_12s.add(&_800000000ns).add(&_500000000ns), time(0, 0, 13, 300000000));
        assert_eq!(_34s.add(&_34s).add(&_800000000ns).add(&_500000000ns), time(0, 1, 9, 300000000));

        // Add minutes and seconds.
        assert_eq!(_59m.add(&_59s).add(&_1s), _1h);
        assert_eq!(_1m.add(&_1s), time(0, 1, 1, 0));
        assert_eq!(_15m.add(&_34s), time(0, 15, 34, 0));
        assert_eq!(_37m.add(&_12s), time(0, 37, 12, 0));
        assert_eq!(_37m.add(&_37m).add(&_34s).add(&_34s), time(1, 15, 8, 0));

        // Add hours and minutes.
        assert_eq!(_1h.add(&_1m), time(1, 1, 0, 0));
        assert_eq!(_2h.add(&_37m).add(&_37m), time(3, 14, 0, 0));
        assert_eq!(_1h.add(&_7h).add(&_37m).add(&_15m).add(&_15m), time(9, 7, 0, 0));

        // Add all.
        assert_eq!(_1h.add(&_1m).add(&_1s).add(&_1ns), time(1, 1, 1, 1));
        assert_eq!(_59m.add(&_59s).add(&_999999999ns).add(&_1ns), _1h);
        assert_eq!(_3h.add(&_37m).add(&_37m).add(&_34s).add(&_34s).add(&_800000000ns).add(&_800000000ns), time(4, 15, 9, 600000000));

        // Sub nanoseconds.
        assert_eq!(_1ns.sub(&_1ns), zero);
        assert_eq!(_1ns.sub(&zero), _1ns);
        assert_eq!(zero.sub(&_1ns), neg_time(0, 0, 0, 1));
        assert_eq!(_800000000ns.sub(&_500000000ns), time(0, 0, 0, 300000000));
        assert_eq!(_200000000ns.sub(&_800000000ns), neg_time(0, 0, 0, 600000000));

        // Sub seconds.
        assert_eq!(_1s.sub(&_1s), zero);
        assert_eq!(_1s.sub(&zero), _1s);
        assert_eq!(zero.sub(&_1s), neg_time(0, 0, 1, 0));
        assert_eq!(_34s.sub(&_12s), time(0, 0, 22, 0));
        assert_eq!(_12s.sub(&_34s), neg_time(0, 0, 22, 0));

        // sub minutes.
        assert_eq!(_1m.sub(&_1m), zero);
        assert_eq!(_1m.sub(&zero), _1m);
        assert_eq!(zero.sub(&_1m), neg_time(0, 1, 0, 0));
        assert_eq!(_37m.sub(&_15m), time(0, 22, 0, 0));
        assert_eq!(_15m.sub(&_37m), neg_time(0, 22, 0, 0));

        // Sub hours.
        assert_eq!(_1h.sub(&_1h), zero);
        assert_eq!(_1h.sub(&zero), _1h);
        assert_eq!(zero.sub(&_1h), neg_time(1, 0, 0, 0));
        assert_eq!(_7h.sub(&_3h), time(4, 0, 0, 0));
        assert_eq!(_3h.sub(&_7h), neg_time(4, 0, 0, 0));

        // Sub all.
        assert_eq!(zero.sub(&_1h).sub(&_1m).sub(&_1s).sub(&_1ns), neg_time(1, 1, 1, 1));
        assert_eq!(_1h.sub(&_1ns), time(0, 59, 59, 999999999));
        assert_eq!(_1m.sub(&_1ns), time(0, 0, 59, 999999999));
        assert_eq!(_1s.sub(&_1ns), time(0, 0, 0, 999999999));
        assert_eq!(_1h.sub(&_15m).sub(&_34s).sub(&_200000000ns), time(0, 44, 25, 800000000));
    }

#[test]
fn add_sub_negative() {
        let zero = time(0, 0, 0, 0);

        // Nanoseconds.
        let _1ns = time(0, 0, 0, 1);
        let neg_1ns = neg_time(0, 0, 0, 1);

        // Seconds.
        let _1s = time(0, 0, 1, 0);
        let neg_1s = neg_time(0, 0, 1, 0);

        // Minutes.
        let _1m = time(0, 1, 0, 0);
        let neg_1m = neg_time(0, 1, 0, 0);

        // Hours.
        let _1h = time(1, 0, 0, 0);
        let neg_1h = neg_time(1, 0, 0, 0);

        // Add nanoseconds.
        assert_eq!(_1ns.add(&neg_1ns), zero);
        assert_eq!(neg_1ns.add(&_1ns), zero);
        assert_eq!(neg_1ns.add(&neg_1ns), neg_time(0, 0, 0, 2));

        // Add seconds.
        assert_eq!(_1s.add(&neg_1s), zero);
        assert_eq!(neg_1s.add(&_1s), zero);
        assert_eq!(neg_1s.add(&neg_1s), neg_time(0, 0, 2, 0));

        // Add minutes.
        assert_eq!(_1m.add(&neg_1m), zero);
        assert_eq!(neg_1m.add(&_1m), zero);
        assert_eq!(neg_1m.add(&neg_1m), neg_time(0, 2, 0, 0));

        // Add hours.
        assert_eq!(_1h.add(&neg_1h), zero);
        assert_eq!(neg_1h.add(&_1h), zero);
        assert_eq!(neg_1h.add(&neg_1h), neg_time(2, 0, 0, 0));

        // Sub nanoseconds.
        assert_eq!(_1ns.sub(&neg_1ns), time(0, 0, 0, 2));
        assert_eq!(neg_1ns.sub(&_1ns), neg_time(0, 0, 0, 2));
        assert_eq!(neg_1ns.sub(&neg_1ns), zero);

        // Sub seconds.
        assert_eq!(_1s.sub(&neg_1s), time(0, 0, 2, 0));
        assert_eq!(neg_1s.sub(&_1s), neg_time(0, 0, 2, 0));
        assert_eq!(neg_1s.sub(&neg_1s), zero);

        // Sub minutes.
        assert_eq!(_1m.sub(&neg_1m), time(0, 2, 0, 0));
        assert_eq!(neg_1m.sub(&_1m), neg_time(0, 2, 0, 0));
        assert_eq!(neg_1m.sub(&neg_1m), zero);

        // Sub hours.
        assert_eq!(_1h.sub(&neg_1h), time(2, 0, 0, 0));
        assert_eq!(neg_1h.sub(&_1h), neg_time(2, 0, 0, 0));
        assert_eq!(neg_1h.sub(&neg_1h), zero);

        // Add/Sub all.
        assert_eq!(neg_1h.add(&neg_1m).add(&neg_1s).add(&neg_1ns), neg_time(1, 1, 1, 1));
        assert_eq!(_1h.add(&neg_1ns), time(0, 59, 59, 999999999));
        assert_eq!(_1m.add(&neg_1ns), time(0, 0, 59, 999999999));
        assert_eq!(_1s.add(&neg_1ns), time(0, 0, 0, 999999999));
        assert_eq!(neg_1h.add(&_1ns), neg_time(0, 59, 59, 999999999));
        assert_eq!(neg_1m.add(&_1ns), neg_time(0, 0, 59, 999999999));
        assert_eq!(neg_1s.add(&_1ns), neg_time(0, 0, 0, 999999999));
    }

#[test]
fn div_time() {
        let zero = time(0, 0, 0, 0);

        // Nanoseconds.
        let _1ns = time(0, 0, 0, 1);
        let neg_1ns = neg_time(0, 0, 0, 1);

        // Seconds.
        let _1s = time(0, 0, 1, 0);
        let neg_1s = neg_time(0, 0, 1, 0);

        // Minutes.
        let _1m = time(0, 1, 0, 0);
        let neg_1m = neg_time(0, 1, 0, 0);

        // Hours.
        let _1h = time(1, 0, 0, 0);
        let neg_1h = neg_time(1, 0, 0, 0);

        // All.
        let _1h_1m_1s_1ns = time(1, 1, 1, 1);
        let neg_1h_1m_1s_1ns = neg_time(1, 1, 1, 1);

        // 0 / x
        assert_eq!(zero.div(&_1ns).unwrap(), dec("0"));
        assert_eq!(zero.div(&_1s).unwrap(), dec("0"));
        assert_eq!(zero.div(&_1m).unwrap(), dec("0"));
        assert_eq!(zero.div(&_1h).unwrap(), dec("0"));
        assert_eq!(zero.div(&_1h_1m_1s_1ns).unwrap(), dec("0"));
        assert_eq!(zero.div(&neg_1ns).unwrap(), dec("0"));
        assert_eq!(zero.div(&neg_1s).unwrap(), dec("0"));
        assert_eq!(zero.div(&neg_1m).unwrap(), dec("0"));
        assert_eq!(zero.div(&neg_1h).unwrap(), dec("0"));
        assert_eq!(zero.div(&neg_1h_1m_1s_1ns).unwrap(), dec("0"));

        // Div nanoseconds.
        assert_eq!(_1ns.div(&_1ns).unwrap(), dec("1"));
        assert_eq!(_1ns.div(&neg_1ns).unwrap(), dec("-1"));
        assert_eq!(neg_1ns.div(&_1ns).unwrap(), dec("-1"));
        assert_eq!(neg_1ns.div(&neg_1ns).unwrap(), dec("1"));

        // Div seconds.
        assert_eq!(_1s.div(&_1s).unwrap(), dec("1"));
        assert_eq!(_1s.div(&neg_1s).unwrap(), dec("-1"));
        assert_eq!(neg_1s.div(&_1s).unwrap(), dec("-1"));
        assert_eq!(neg_1s.div(&neg_1s).unwrap(), dec("1"));

        assert_eq!(_1s.div(&_1ns).unwrap(), dec("1_000_000_000"));
        assert_eq!(_1s.div(&time(0, 0, 0, 500000000)).unwrap(), dec("2.0"));

        // Div minutes.
        assert_eq!(_1m.div(&_1m).unwrap(), dec("1"));
        assert_eq!(_1m.div(&neg_1m).unwrap(), dec("-1"));
        assert_eq!(neg_1m.div(&_1m).unwrap(), dec("-1"));
        assert_eq!(neg_1m.div(&neg_1m).unwrap(), dec("1"));

        assert_eq!(_1m.div(&_1s).unwrap(), dec("60"));
        assert_eq!(_1m.div(&_1ns).unwrap(), dec("60_000_000_000"));

        assert_eq!(_1m.div(&time(0, 0, 30, 0)).unwrap(), dec("2.0"));
        assert_eq!(_1m.div(&time(0, 0, 15, 0)).unwrap(), dec("4.0"));
        assert_eq!(_1m.div(&time(0, 0, 10, 0)).unwrap(), dec("6.0"));
        assert_eq!(_1m.div(&time(0, 0, 5, 0)).unwrap(), dec("12.0"));
        assert_eq!(_1m.div(&time(0, 0, 3, 0)).unwrap(), dec("20.0"));

        assert_eq!(_1m.div(&time(0, 0, 2, 500000000)).unwrap(), dec("24.0"));
        assert_eq!(_1m.div(&time(0, 0, 16, 0)).unwrap(), dec("3.75"));
        assert_eq!(_1m.div(&time(0, 4, 0, 0)).unwrap(), dec("0.25"));
        assert_eq!(_1m.div(&time(0, 2, 30, 0)).unwrap(), dec("0.4"));

        // Div hours.
        assert_eq!(_1h.div(&_1h).unwrap(), dec("1"));
        assert_eq!(_1h.div(&neg_1h).unwrap(), dec("-1"));
        assert_eq!(neg_1h.div(&_1h).unwrap(), dec("-1"));
        assert_eq!(neg_1h.div(&neg_1h).unwrap(), dec("1"));

        assert_eq!(_1h.div(&_1m).unwrap(), dec("60"));
        assert_eq!(_1h.div(&_1s).unwrap(), dec("3600"));
        assert_eq!(_1h.div(&_1ns).unwrap(), dec("3_600_000_000_000"));

        assert_eq!(_1h.div(&time(0, 20, 0, 0)).unwrap(), dec("3.0"));
        assert_eq!(_1h.div(&time(0, 12, 0, 0)).unwrap(), dec("5.0"));
        assert_eq!(_1h.div(&time(0, 6, 0, 0)).unwrap(), dec("10.0"));
        assert_eq!(_1h.div(&time(0, 4, 0, 0)).unwrap(), dec("15.0"));
        assert_eq!(_1h.div(&time(0, 2, 0, 0)).unwrap(), dec("30.0"));

        assert_eq!(_1h.div(&time(0, 7, 30, 0)).unwrap(), dec("8"));
        assert_eq!(_1h.div(&time(0, 24, 0, 0)).unwrap(), dec("2.5"));
        assert_eq!(_1h.div(&time(2, 30, 0, 0)).unwrap(), dec("0.4"));

        // Div all.
        assert_eq!(_1h_1m_1s_1ns.div(&_1h_1m_1s_1ns).unwrap(), dec("1"));
        assert_eq!(_1h_1m_1s_1ns.div(&neg_1h_1m_1s_1ns).unwrap(), dec("-1"));
        assert_eq!(neg_1h_1m_1s_1ns.div(&_1h_1m_1s_1ns).unwrap(), dec("-1"));
        assert_eq!(neg_1h_1m_1s_1ns.div(&neg_1h_1m_1s_1ns).unwrap(), dec("1"));

        assert_eq!(_1h_1m_1s_1ns.div(&_1ns).unwrap(), dec("3661000000001"));
        assert_eq!(_1h_1m_1s_1ns.div(&_1s).unwrap(), dec("3661.000000001"));
        //          1h:1m        /  1m    == 61
        //                1s     /  1m    == 00.0166666666666666...
        //                   1ns /  1m    == 00.0000000000166666...
        assert_eq!(_1h_1m_1s_1ns.div(&_1m).unwrap(), dec("61.0166666666833333333333333333"));
        //             1m        /  1h    == 0.01666666666666666...
        //                1s     /  1h    == 0.00027777777777777...
        //                   1ns /  1h    == 0.00000000000027777...
        assert_eq!(_1h_1m_1s_1ns.div(&_1h).unwrap(), dec("1.01694444444472222222222222222"));
    }

#[test]
fn div_num() {
        let zero = time(0, 0, 0, 0);
        assert_eq!(zero.div_decimal(&dec("1.0")).unwrap(), zero);
        assert_eq!(zero.div_decimal(&dec("1.5")).unwrap(), zero);
        assert_eq!(zero.div_decimal(&dec("2.0")).unwrap(), zero);
        assert_eq!(zero.div_decimal(&dec("12345.0")).unwrap(), zero);

        // Div nanoseconds.
        let _1ns = time(0, 0, 0, 1);
        let neg_1ns = neg_time(0, 0, 0, 1);
        assert_eq!(_1ns.div_decimal(&dec("1")).unwrap(), _1ns);
        assert_eq!(_1ns.div_decimal(&dec("1.00")).unwrap(), _1ns);
        assert_eq!(_1ns.div_decimal(&dec("-1.0")).unwrap(), neg_1ns);
        assert_eq!(neg_1ns.div_decimal(&dec("1.0")).unwrap(), neg_1ns);
        assert_eq!(neg_1ns.div_decimal(&dec("-1.0")).unwrap(), _1ns);

        assert_eq!(_1ns.div_decimal(&dec("2.0")).unwrap(), _1ns); // 0.5ns rounds up to 1ns.
        assert_eq!(_1ns.div_decimal(&dec("3.0")).unwrap(), zero); // 0.333ns rounds down to 0ns.

        assert_eq!(_1ns.div_decimal(&dec("0.5")).unwrap(), time(0, 0, 0, 2));
        assert_eq!(_1ns.div_decimal(&dec("0.1")).unwrap(), time(0, 0, 0, 10));

        // Div seconds.
        let _1s = time(0, 0, 1, 0);
        let _2s = time(0, 0, 2, 0);
        let neg_1s = neg_time(0, 0, 1, 0);
        assert_eq!(_1s.div_decimal(&dec("1")).unwrap(), _1s);
        assert_eq!(_1s.div_decimal(&dec("1.00")).unwrap(), _1s);
        assert_eq!(_1s.div_decimal(&dec("-1.0")).unwrap(), neg_1s);
        assert_eq!(neg_1s.div_decimal(&dec("1.0")).unwrap(), neg_1s);
        assert_eq!(neg_1s.div_decimal(&dec("-1.0")).unwrap(), _1s);

        assert_eq!(_1s.div_decimal(&dec("2.0")).unwrap(), time(0, 0, 0, 500000000));
        assert_eq!(_1s.div_decimal(&dec("2.000")).unwrap(), time(0, 0, 0, 500000000));
        assert_eq!(_1s.div_decimal(&dec("0.5")).unwrap(), time(0, 0, 2, 0));
        assert_eq!(_1s.div_decimal(&dec("0.500")).unwrap(), time(0, 0, 2, 0));

        assert_eq!(_1s.div_decimal(&dec("3.0")).unwrap(), time(0, 0, 0, 333333333));
        assert_eq!(_1s.div_decimal(&dec("6.0")).unwrap(), time(0, 0, 0, 166666667));
        assert_eq!(_1s.div_decimal(&dec("9.0")).unwrap(), time(0, 0, 0, 111111111));
        assert_eq!(_2s.div_decimal(&dec("3.0")).unwrap(), time(0, 0, 0, 666666667));
        assert_eq!(_2s.div_decimal(&dec("6.0")).unwrap(), time(0, 0, 0, 333333333));
        assert_eq!(_2s.div_decimal(&dec("9.0")).unwrap(), time(0, 0, 0, 222222222));
        assert_eq!(_1s.div_decimal(&dec("4.2")).unwrap(), time(0, 0, 0, 238095238));

        // Div minutes.
        let _1m = time(0, 1, 0, 0);
        let neg_1m = neg_time(0, 1, 0, 0);
        assert_eq!(_1m.div_decimal(&dec("1")).unwrap(), _1m);
        assert_eq!(_1m.div_decimal(&dec("1.00")).unwrap(), _1m);
        assert_eq!(_1m.div_decimal(&dec("-1.0")).unwrap(), neg_1m);
        assert_eq!(neg_1m.div_decimal(&dec("1.0")).unwrap(), neg_1m);
        assert_eq!(neg_1m.div_decimal(&dec("-1.0")).unwrap(), _1m);

        assert_eq!(_1m.div_decimal(&dec("2.0")).unwrap(), time(0, 0, 30, 0));
        assert_eq!(_1m.div_decimal(&dec("4.0")).unwrap(), time(0, 0, 15, 0));
        assert_eq!(_1m.div_decimal(&dec("6.0")).unwrap(), time(0, 0, 10, 0));
        assert_eq!(_1m.div_decimal(&dec("12.0")).unwrap(), time(0, 0, 5, 0));
        assert_eq!(_1m.div_decimal(&dec("20.0")).unwrap(), time(0, 0, 3, 0));

        assert_eq!(_1m.div_decimal(&dec("7.0")).unwrap(), time(0, 0, 8, 571428571));
        assert_eq!(_1m.div_decimal(&dec("8.0")).unwrap(), time(0, 0, 7, 500000000));
        assert_eq!(_1m.div_decimal(&dec("9.0")).unwrap(), time(0, 0, 6, 666666667));
        assert_eq!(_1m.div_decimal(&dec("4.2")).unwrap(), time(0, 0, 14, 285714286));

        // Div hours.
        let _1h = time(1, 0, 0, 0);
        let neg_1h = neg_time(1, 0, 0, 0);
        assert_eq!(_1h.div_decimal(&dec("1")).unwrap(), _1h);
        assert_eq!(_1h.div_decimal(&dec("1.00")).unwrap(), _1h);
        assert_eq!(_1h.div_decimal(&dec("-1.0")).unwrap(), neg_1h);
        assert_eq!(neg_1h.div_decimal(&dec("1.0")).unwrap(), neg_1h);
        assert_eq!(neg_1h.div_decimal(&dec("-1.0")).unwrap(), _1h);

        assert_eq!(_1h.div_decimal(&dec("3.0")).unwrap(), time(0, 20, 0, 0));
        assert_eq!(_1h.div_decimal(&dec("5.0")).unwrap(), time(0, 12, 0, 0));
        assert_eq!(_1h.div_decimal(&dec("10.0")).unwrap(), time(0, 6, 0, 0));
        assert_eq!(_1h.div_decimal(&dec("15.0")).unwrap(), time(0, 4, 0, 0));
        assert_eq!(_1h.div_decimal(&dec("30.0")).unwrap(), time(0, 2, 0, 0));

        assert_eq!(_1h.div_decimal(&dec("7.0")).unwrap(), time(0, 8, 34, 285714286));
        assert_eq!(_1h.div_decimal(&dec("8.0")).unwrap(), time(0, 7, 30, 0));
        assert_eq!(_1h.div_decimal(&dec("9.0")).unwrap(), time(0, 6, 40, 0));
        assert_eq!(_1h.div_decimal(&dec("4.2")).unwrap(), time(0, 14, 17, 142857143));

        // Div all.
        let _1h_1m_1s_1ns = time(1, 1, 1, 1);
        let neg_1h_1m_1s_1ns = neg_time(1, 1, 1, 1);
        assert_eq!(_1h_1m_1s_1ns.div_decimal(&dec("1")).unwrap(), _1h_1m_1s_1ns);
        assert_eq!(_1h_1m_1s_1ns.div_decimal(&dec("1")).unwrap(), _1h_1m_1s_1ns);
        assert_eq!(_1h_1m_1s_1ns.div_decimal(&dec("1.00")).unwrap(), _1h_1m_1s_1ns);
        assert_eq!(_1h_1m_1s_1ns.div_decimal(&dec("-1.0")).unwrap(), neg_1h_1m_1s_1ns);
        assert_eq!(neg_1h_1m_1s_1ns.div_decimal(&dec("1.0")).unwrap(), neg_1h_1m_1s_1ns);
        assert_eq!(neg_1h_1m_1s_1ns.div_decimal(&dec("-1.0")).unwrap(), _1h_1m_1s_1ns);

        assert_eq!(_1h_1m_1s_1ns.div_decimal(&dec("2.0")).unwrap(), time(0, 30, 30, 500000001));
        assert_eq!(_1h_1m_1s_1ns.div_decimal(&dec("3.0")).unwrap(), time(0, 20, 20, 333333334));
        assert_eq!(_1h_1m_1s_1ns.div_decimal(&dec("4.0")).unwrap(), time(0, 15, 15, 250000000));
        assert_eq!(_1h_1m_1s_1ns.div_decimal(&dec("4.2")).unwrap(), time(0, 14, 31, 666666667));
    }

#[test]
fn mul() {
        let zero = time(0, 0, 0, 0);

        // Nanoseconds.
        let _1ns = time(0, 0, 0, 1);
        let neg_1ns = neg_time(0, 0, 0, 1);

        // Seconds.
        let _1s = time(0, 0, 1, 0);
        let neg_1s = neg_time(0, 0, 1, 0);

        // Minutes.
        let _1m = time(0, 1, 0, 0);
        let neg_1m = neg_time(0, 1, 0, 0);

        // Hours.
        let _1h = time(1, 0, 0, 0);
        let neg_1h = neg_time(1, 0, 0, 0);

        // All.
        let _1h_1m_1s_1ns = time(1, 1, 1, 1);
        let neg_1h_1m_1s_1ns = neg_time(1, 1, 1, 1);

        // x * 0.0
        assert_mul(zero, dec("0.0"), zero);
        assert_mul(_1ns, dec("0.0"), zero);
        assert_mul(_1s, dec("0.0"), zero);
        assert_mul(_1m, dec("0.0"), zero);
        assert_mul(_1h, dec("0.0"), zero);
        assert_mul(_1h_1m_1s_1ns, dec("0.0"), zero);

        // x * 1.0
        assert_mul(_1ns, dec("1.0"), _1ns);
        assert_mul(_1s, dec("1.0"), _1s);
        assert_mul(_1m, dec("1.0"), _1m);
        assert_mul(_1h, dec("1.0"), _1h);
        assert_mul(_1h_1m_1s_1ns, dec("1.0"), _1h_1m_1s_1ns);
        assert_mul(neg_1ns, dec("1.0"), neg_1ns);
        assert_mul(neg_1s, dec("1.0"), neg_1s);
        assert_mul(neg_1m, dec("1.0"), neg_1m);
        assert_mul(neg_1h, dec("1.0"), neg_1h);
        assert_mul(neg_1h_1m_1s_1ns, dec("1.0"), neg_1h_1m_1s_1ns);

        // x * -1.0
        assert_mul(_1ns, dec("-1.0"), neg_1ns);
        assert_mul(_1s, dec("-1.0"), neg_1s);
        assert_mul(_1m, dec("-1.0"), neg_1m);
        assert_mul(_1h, dec("-1.0"), neg_1h);
        assert_mul(_1h_1m_1s_1ns, dec("-1.0"), neg_1h_1m_1s_1ns);
        assert_mul(neg_1ns, dec("-1.0"), _1ns);
        assert_mul(neg_1s, dec("-1.0"), _1s);
        assert_mul(neg_1m, dec("-1.0"), _1m);
        assert_mul(neg_1h, dec("-1.0"), _1h);
        assert_mul(neg_1h_1m_1s_1ns, dec("-1.0"), _1h_1m_1s_1ns);

        // Mul nanoseconds.
        assert_mul(_1ns, dec("1234.0"), time(0, 0, 0, 1234));
        assert_mul(_1ns, dec("56789.0"), time(0, 0, 0, 56789));

        // Mul seconds.
        assert_mul(_1s, dec("0.25"), time(0, 0, 0, 250000000));
        assert_mul(_1s, dec("4.0"), time(0, 0, 4, 0));
        assert_mul(_1s, dec("75.0"), time(0, 1, 15, 0));
        assert_mul(_1s, dec("3661.0"), time(1, 1, 1, 0));

        // Mul minutes.
        assert_mul(_1m, dec("0.5"), time(0, 0, 30, 0));
        assert_mul(_1m, dec("12.2"), time(0, 12, 12, 0));
        assert_mul(_1m, dec("125.125"), time(2, 5, 7, 500000000));

        // Mul hours.
        assert_mul(_1h, dec("0.75"), time(0, 45, 0, 0));
        assert_mul(_1h, dec("13.579"), time(13, 34, 44, 400000000));
        assert_mul(_1h, dec("22.22"), time(22, 13, 12, 0));

        // Mul all.
        assert_mul(_1h_1m_1s_1ns, dec("3.0"), time(3, 3, 3, 3));
        assert_mul(_1h_1m_1s_1ns, dec("77"), time(78, 18, 17, 77));
        // 1h * 8.8  = 8h 48m
        // 1m * 8.8  =     8m 48s
        // 1s * 8.8  =         8s 800000000ns
        // 1ns * 8.8 =                    9ns
        assert_mul(_1h_1m_1s_1ns, dec("8.8"), time(8, 56, 56, 800000009));
    }

#[test]
fn div_greater_than_max() {
    let t = Time::builder().negative().hours(256204778801521).build();
    assert!(t.div_decimal(&dec("-0.01")).is_none());
}

#[test]
fn mul_less_than_min() {
    let t = Time::builder().hours(256204778801521).build();
    assert!(t.mul_decimal(&dec("-100")).is_none());
}


fn dec(s: &str) -> Decimal {
    Decimal::parse(s).unwrap()
}

fn time(hours: u64, minutes: u8, seconds: u8, nanoseconds: u32) -> Time {
    Time::builder()
        .hours(hours)
        .minutes(minutes)
        .seconds(seconds)
        .nanoseconds(nanoseconds)
        .build()
}

fn neg_time(hours: u64, minutes: u8, seconds: u8, nanoseconds: u32) -> Time {
    Time::builder()
        .negative()
        .hours(hours)
        .minutes(minutes)
        .seconds(seconds)
        .nanoseconds(nanoseconds)
        .build()
}

fn assert_time(
    time: Time, total_seconds: i64, nanoseconds_offset: u32,
    signum: i64, hours: u64, minutes: u8, seconds: u8, nanoseconds: u32,
    time_string: &str
) {
    assert_eq!(total_seconds, time.total_seconds());
    assert_eq!(nanoseconds_offset, time.nanoseconds_offset());

    assert_eq!(signum, time.signum());
    assert_eq!(hours, time.hours());
    assert_eq!(minutes, time.minutes());
    assert_eq!(seconds, time.seconds());
    assert_eq!(nanoseconds, time.nanoseconds());

    assert_eq!(time_string, time.to_text());
}

/// Assert time * num == expected.
fn assert_mul(time: Time, num: Decimal, expected: Time) {
    assert_eq!(time.mul_decimal(&num).unwrap(), expected);
}
