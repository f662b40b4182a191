//! Length estimation for single arguments.

use compile_fmt::{
    Alignment, Argument, ArgumentInner, ArgumentWrapper, Pad, StrFormat, StrLength,
};
use rand::distr::uniform::{UniformSampler, UniformUsize};
use rand::rngs::StdRng;
use rand::{Rng, SeedableRng};

#[test]
fn length_estimation_for_small_ints() {
    for i in 0_u8..=u8::MAX {
        assert_eq!(
            ArgumentWrapper::new(i).into_argument().formatted_len(),
            i.to_string().len(),
            "Formatted length estimated incorrectly for {i}"
        );
    }
    for i in 0_u16..=u16::MAX {
        assert_eq!(
            ArgumentWrapper::new(i).into_argument().formatted_len(),
            i.to_string().len(),
            "Formatted length estimated incorrectly for {i}"
        );
    }
    for i in i8::MIN..=i8::MAX {
        assert_eq!(
            ArgumentWrapper::new(i).into_argument().formatted_len(),
            i.to_string().len(),
            "Formatted length estimated incorrectly for {i}"
        );
    }
    for i in i16::MIN..=i16::MAX {
        assert_eq!(
            ArgumentWrapper::new(i).into_argument().formatted_len(),
            i.to_string().len(),
            "Formatted length estimated incorrectly for {i}"
        );
    }
}

#[test]
fn length_estimation_for_large_ints() {
    const RNG_SEED: u64 = 123;
    const SAMPLE_COUNT: usize = 100_000;

    let mut rng = StdRng::seed_from_u64(RNG_SEED);
    for _ in 0..SAMPLE_COUNT {
        let i: u32 = rng.random();
        assert_eq!(
            ArgumentWrapper::new(i).into_argument().formatted_len(),
            i.to_string().len(),
            "Formatted length estimated incorrectly for {i}"
        );
    }
    for _ in 0..SAMPLE_COUNT {
        let i: u64 = rng.random();
        assert_eq!(
            ArgumentWrapper::new(i).into_argument().formatted_len(),
            i.to_string().len(),
            "Formatted length estimated incorrectly for {i}"
        );
    }
    for _ in 0..SAMPLE_COUNT {
        let i: u128 = rng.random();
        assert_eq!(
            ArgumentWrapper::new(i).into_argument().formatted_len(),
            i.to_string().len(),
            "Formatted length estimated incorrectly for {i}"
        );
    }

    let sampler = UniformUsize::new_inclusive(0, usize::MAX).unwrap();
    for _ in 0..SAMPLE_COUNT {
        let i = sampler.sample(&mut rng);
        assert_eq!(
            ArgumentWrapper::new(i).into_argument().formatted_len(),
            i.to_string().len(),
            "Formatted length estimated incorrectly for {i}"
        );
    }

    for _ in 0..SAMPLE_COUNT {
        let i: i32 = rng.random();
        assert_eq!(
            ArgumentWrapper::new(i).into_argument().formatted_len(),
            i.to_string().len(),
            "Formatted length estimated incorrectly for {i}"
        );
    }
    for _ in 0..SAMPLE_COUNT {
        let i: i64 = rng.random();
        assert_eq!(
            ArgumentWrapper::new(i).into_argument().formatted_len(),
            i.to_string().len(),
            "Formatted length estimated incorrectly for {i}"
        );
    }
    for _ in 0..SAMPLE_COUNT {
        let i: i128 = rng.random();
        assert_eq!(
            ArgumentWrapper::new(i).into_argument().formatted_len(),
            i.to_string().len(),
            "Formatted length estimated incorrectly for {i}"
        );
    }

    for _ in 0..SAMPLE_COUNT {
        let i = sampler.sample(&mut rng) as isize;
        assert_eq!(
            ArgumentWrapper::new(i).into_argument().formatted_len(),
            i.to_string().len(),
            "Formatted length estimated incorrectly for {i}"
        );
    }
}

#[test]
fn formatted_len_for_clipped_strings() {
    let arg = ArgumentInner::Str(
        "teßt",
        Some(StrFormat {
            clip_at: 2,
            using: "",
        }),
    );
    assert_eq!(arg.formatted_len(), StrLength::for_str("te"));

    let arg = ArgumentInner::Str(
        "teßt",
        Some(StrFormat {
            clip_at: 2,
            using: "...",
        }),
    );
    assert_eq!(arg.formatted_len(), StrLength::for_str("te..."));

    let arg = ArgumentInner::Str(
        "teßt",
        Some(StrFormat {
            clip_at: 2,
            using: "…",
        }),
    );
    assert_eq!(arg.formatted_len(), StrLength::for_str("te…"));

    let arg = ArgumentInner::Str(
        "teßt",
        Some(StrFormat {
            clip_at: 3,
            using: "",
        }),
    );
    assert_eq!(arg.formatted_len(), StrLength::for_str("teß"));

    let arg = ArgumentInner::Str(
        "teßt",
        Some(StrFormat {
            clip_at: 3,
            using: "…",
        }),
    );
    assert_eq!(arg.formatted_len(), StrLength::for_str("teß…"));

    let arg = ArgumentInner::Str(
        "teßt",
        Some(StrFormat {
            clip_at: 3,
            using: "-",
        }),
    );
    assert_eq!(arg.formatted_len(), StrLength::for_str("teß-"));

    for clip_at in [4, 5, 16] {
        for using in ["", "...", "…"] {
            let arg = ArgumentInner::Str("teßt", Some(StrFormat { clip_at, using }));
            assert_eq!(arg.formatted_len(), StrLength::for_str("teßt"));
        }
    }
}

#[test]
fn formatted_len_with_padding() {
    let argument = Argument {
        inner: ArgumentInner::Str("teßt", None),
        pad: Some(Pad {
            align: Alignment::Left,
            width: 8,
            using: ' ',
        }),
    };
    assert_eq!(argument.formatted_len(), "teßt    ".len());

    let argument = Argument {
        inner: ArgumentInner::Str("teßt", None),
        pad: Some(Pad {
            align: Alignment::Left,
            width: 8,
            using: '💣',
        }),
    };
    assert_eq!(argument.formatted_len(), "teßt💣💣💣💣".len());

    for pad_width in 1..=4 {
        let argument = Argument {
            inner: ArgumentInner::Str("teßt", None),
            pad: Some(Pad {
                align: Alignment::Left,
                width: pad_width,
                using: ' ',
            }),
        };
        assert_eq!(argument.formatted_len(), "teßt".len());
    }
}

#[test]
fn formatted_len_with_padding_and_clipping() {
    let inner = ArgumentInner::Str(
        "teßt",
        Some(StrFormat {
            clip_at: 3,
            using: "…",
        }),
    );
    let argument = Argument {
        inner,
        pad: Some(Pad {
            align: Alignment::Left,
            width: 8,
            using: ' ',
        }),
    };
    assert_eq!(argument.formatted_len(), "teß…    ".len());

    let argument = Argument {
        inner,
        pad: Some(Pad {
            align: Alignment::Left,
            width: 8,
            using: '💣',
        }),
    };
    assert_eq!(argument.formatted_len(), "teß…💣💣💣💣".len());

    for pad_width in 1..=4 {
        let argument = Argument {
            inner,
            pad: Some(Pad {
                align: Alignment::Left,
                width: pad_width,
                using: ' ',
            }),
        };
        assert_eq!(argument.formatted_len(), "teß…".len());
    }
}
