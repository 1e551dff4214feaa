use gatekeeper::binary64::Binary64;
use gatekeeper::time::Duration;

fn number(x: f64) -> Binary64 {
    Binary64 { bits: x.to_bits() }
}

fn same(got: Binary64, want: f64) -> bool {
    let got = f64::from_bits(got.bits);
    got.is_nan() && want.is_nan() || got.to_bits() == want.to_bits()
}

fn specials() -> Vec<f64> {
    let mut v = vec![
        0.0,
        1.0,
        0.1,
        0.5,
        1.5,
        2.0,
        3.0,
        10.0,
        1e-300,
        1e300,
        1e308,
        f64::MAX,
        f64::MIN_POSITIVE,
        f64::from_bits(1),
        f64::from_bits(0x000f_ffff_ffff_ffff),
        f64::INFINITY,
        f64::NAN,
        9007199254740991.0,
        9007199254740992.0,
        9007199254740994.0,
        18446744073709551615.0,
        1e9,
        999999999.0,
        1.0 + f64::EPSILON,
    ];
    let negated: Vec<f64> = v.iter().map(|x| -x).collect();
    v.extend(negated);
    v
}

struct Random(u64);

impl Random {
    fn next(&mut self) -> u64 {
        self.0 ^= self.0 << 13;
        self.0 ^= self.0 >> 7;
        self.0 ^= self.0 << 17;
        self.0
    }

    fn number(&mut self, near: f64) -> f64 {
        match self.next() % 4 {
            0 => f64::from_bits(self.next()),
            1 => (self.next() >> 11) as f64 / 1024.0,
            2 => f64::from_bits(near.to_bits() ^ (self.next() % 64)),
            _ => near * ((self.next() % 1000) as f64),
        }
    }
}

fn pairs(count: usize) -> Vec<(f64, f64)> {
    let mut v = Vec::new();
    for a in specials() {
        for b in specials() {
            v.push((a, b));
        }
    }
    let mut random = Random(0x9e37_79b9_7f4a_7c15);
    let mut a = 1.0;
    for _ in 0..count {
        let b = random.number(a);
        v.push((a, b));
        a = random.number(b);
        if !a.is_finite() {
            a = 2.75;
        }
    }
    v
}

#[test]
fn sums_are_those_of_the_machine() {
    for (a, b) in pairs(20000) {
        assert!(same(number(a).add(number(b)), a + b), "{a:e} + {b:e}");
        assert!(same(number(a).sub(number(b)), a - b), "{a:e} - {b:e}");
    }
}

#[test]
fn products_are_those_of_the_machine() {
    for (a, b) in pairs(20000) {
        assert!(same(number(a).mul(number(b)), a * b), "{a:e} * {b:e}");
    }
}

#[test]
fn quotients_are_those_of_the_machine() {
    for (a, b) in pairs(20000) {
        assert!(same(number(a).div(number(b)), a / b), "{a:e} / {b:e}");
    }
}

#[test]
fn comparisons_are_those_of_the_machine() {
    for (a, b) in pairs(20000) {
        assert_eq!(number(a).ge(number(b)), a >= b, "{a:e} >= {b:e}");
        let min = f64::from_bits(number(a).min(number(b)).bits);
        let want = a.min(b);
        assert!(min == want || min.is_nan() && want.is_nan(), "min({a:e}, {b:e})");
        assert_eq!(number(a).is_positive(), a > 0.0);
        assert!(same(number(a).neg(), -a));
    }
}

#[test]
fn whole_parts_are_those_of_the_machine() {
    for (a, b) in pairs(20000) {
        for x in [a, b] {
            assert_eq!(number(x).whole(), x.floor().max(0.0) as u64, "{x:e}");
        }
    }
}

#[test]
fn whole_numbers_are_rounded_as_by_the_machine() {
    let mut random = Random(77);
    for i in 0..2000u64 {
        let n = random.next() >> (i % 64);
        assert!(same(Binary64::from_whole(n as u128), n as f64), "{n}");
    }
    for n in [0, 1, u64::MAX, u64::MAX - 1, 1 << 53, (1 << 53) + 1, (1 << 53) + 3] {
        assert!(same(Binary64::from_whole(n as u128), n as f64), "{n}");
    }
}

#[test]
fn lengths_of_time_are_those_of_the_standard_library() {
    for (a, b) in pairs(20000) {
        for x in [a, b, a.abs() % 1e6, b.abs() % 10.0] {
            let want = std::time::Duration::try_from_secs_f64(x).ok();
            let got = Duration::from_seconds(number(x));
            let got = got.map(|d| std::time::Duration::new(d.secs, d.nanos));
            assert_eq!(got, want, "{x:e}");
        }
    }
}

#[test]
fn seconds_are_those_of_the_standard_library() {
    let mut random = Random(1234);
    for i in 0..20000u64 {
        let secs = random.next() >> (i % 64);
        let nanos = (random.next() % 1_000_000_000) as u32;
        let want = std::time::Duration::new(secs, nanos).as_secs_f64();
        assert!(same(Duration { secs, nanos }.as_seconds(), want), "{secs} {nanos}");
    }
}

#[test]
fn small_whole_numbers_are_exact() {
    let (a, b) = (Binary64::from_whole(1 << 53), Binary64::from_whole(12345));
    assert_eq!(a.sub(b), Binary64::from_whole((1 << 53) - 12345));
    assert_eq!(b.mul(b), Binary64::from_whole(152399025));
    assert_eq!(b.mul(b).div(b), b);
    assert_eq!(b.whole(), 12345);
    assert!(!b.ge(Binary64::from_whole(12346)));
}

#[test]
fn beyond_53_digits_numbers_merge() {
    assert_eq!(Binary64::from_whole((1 << 53) + 1), Binary64::from_whole(1 << 53));
}

#[test]
fn nanoseconds_make_up_lengths() {
    let length = Duration { secs: 3, nanos: 7 };
    assert_eq!(length.as_nanos(), 3_000_000_007);
    assert_eq!(Duration::from_secs(9), Duration { secs: 9, nanos: 0 });
}
