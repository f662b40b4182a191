//! End-to-end formatting: the estimate-then-write pipeline.

use compile_fmt::{clip, clip_ascii, fmt, Argument, ArgumentWrapper, Ascii, CompileArgs};

const THRESHOLD: usize = 32;

#[test]
fn basics() {
    let test: CompileArgs<32> = CompileArgs::format(&[
        ArgumentWrapper::new("expected ").into_argument(),
        ArgumentWrapper::new(1_usize).into_argument(),
        ArgumentWrapper::new(" to be greater than ").into_argument(),
        ArgumentWrapper::new(THRESHOLD).into_argument(),
    ]);
    assert_eq!(test.as_str(), "expected 1 to be greater than 32");
}

#[test]
fn using_chars() {
    let chars: CompileArgs<11> = CompileArgs::format(&[
        ArgumentWrapper::new('H').into_argument(),
        ArgumentWrapper::new('i').into_argument(),
        ArgumentWrapper::new('ß').into_argument(),
        ArgumentWrapper::new('ℝ').into_argument(),
        ArgumentWrapper::new('💣').into_argument(),
    ]);
    assert_eq!(chars.as_str(), "Hißℝ💣");
}

#[test]
fn using_dynamic_chars() {
    for char in ['i', 'ß', 'ℝ', '💣'] {
        let s: CompileArgs<11> = CompileArgs::format(&[
            ArgumentWrapper::new("char: ").into_argument(),
            ArgumentWrapper::new(char).with_fmt(fmt::<char>()).into_argument(),
            ArgumentWrapper::new('!').into_argument(),
        ]);
        assert_eq!(s.as_str(), format!("char: {char}!"));
    }
}

fn quoted_clipped<'a>(arg: &'a str, clipped: compile_fmt::Fmt<&'a str>) -> [Argument<'a>; 3] {
    [
        ArgumentWrapper::new("string: '").into_argument(),
        ArgumentWrapper::new(arg).with_fmt(clipped).into_argument(),
        ArgumentWrapper::new('\'').into_argument(),
    ]
}

#[test]
fn clipping_strings() {
    let arg = "dynamic";
    let s: CompileArgs<64> = CompileArgs::format(&quoted_clipped(arg, clip(3, "")));
    assert_eq!(s.as_str(), "string: 'dyn'");

    let arg = "Tℝ💣eßt";
    let s: CompileArgs<64> = CompileArgs::format(&quoted_clipped(arg, clip(2, "")));
    assert_eq!(s.as_str(), "string: 'Tℝ'");
    let s: CompileArgs<64> = CompileArgs::format(&quoted_clipped(arg, clip(3, "")));
    assert_eq!(s.as_str(), "string: 'Tℝ💣'");
    let s: CompileArgs<64> = CompileArgs::format(&quoted_clipped(arg, clip(4, "")));
    assert_eq!(s.as_str(), "string: 'Tℝ💣e'");
    let s: CompileArgs<64> = CompileArgs::format(&quoted_clipped(arg, clip(5, "")));
    assert_eq!(s.as_str(), "string: 'Tℝ💣eß'");
}

#[test]
fn clipping_strings_with_clip_chars() {
    let arg = "dynamic";
    let s: CompileArgs<64> = CompileArgs::format(&quoted_clipped(arg, clip(3, "-")));
    assert_eq!(s.as_str(), "string: 'dyn-'");
    let s: CompileArgs<64> = CompileArgs::format(&quoted_clipped(arg, clip(3, "[..]")));
    assert_eq!(s.as_str(), "string: 'dyn[..]'");
    let s: CompileArgs<64> = CompileArgs::format(&quoted_clipped(arg, clip(3, "…")));
    assert_eq!(s.as_str(), "string: 'dyn…'");

    let s: CompileArgs<64> = CompileArgs::format(&quoted_clipped(arg, clip(10, "-")));
    assert_eq!(s.as_str(), "string: 'dynamic'");
}

fn bracketed_number(num: u64, format: compile_fmt::Fmt<u64>) -> [Argument<'static>; 3] {
    [
        ArgumentWrapper::new("number: [").into_argument(),
        ArgumentWrapper::new(num).with_fmt(format).into_argument(),
        ArgumentWrapper::new("]").into_argument(),
    ]
}

#[test]
fn padding() {
    let num = 42_u64;
    let s: CompileArgs<64> =
        CompileArgs::format(&bracketed_number(num, fmt::<u64>().pad_left(4, ' ')));
    assert_eq!(s.as_str(), "number: [42  ]");

    let s: CompileArgs<64> =
        CompileArgs::format(&bracketed_number(num, fmt::<u64>().pad_center(4, ' ')));
    assert_eq!(s.as_str(), "number: [ 42 ]");

    let s: CompileArgs<64> =
        CompileArgs::format(&bracketed_number(num, fmt::<u64>().pad_right(4, '0')));
    assert_eq!(s.as_str(), "number: [0042]");

    let s: CompileArgs<64> =
        CompileArgs::format(&bracketed_number(num, fmt::<u64>().pad_right(4, 'ℝ')));
    assert_eq!(s.as_str(), "number: [ℝℝ42]");
    let s: CompileArgs<64> =
        CompileArgs::format(&bracketed_number(num, fmt::<u64>().pad_right(4, '💣')));
    assert_eq!(s.as_str(), "number: [💣💣42]");

    let s: CompileArgs<64> =
        CompileArgs::format(&bracketed_number(num * 10_000, fmt::<u64>().pad_right(4, '0')));
    assert_eq!(s.as_str(), "number: [420000]");
}

fn bracketed_str<'a>(arg: &'a str, format: compile_fmt::Fmt<&'a str>) -> [Argument<'a>; 3] {
    [
        ArgumentWrapper::new("string: [").into_argument(),
        ArgumentWrapper::new(arg).with_fmt(format).into_argument(),
        ArgumentWrapper::new("]").into_argument(),
    ]
}

#[test]
fn clipping_and_padding() {
    let arg = "test string";
    let s: CompileArgs<64> =
        CompileArgs::format(&bracketed_str(arg, clip(4, "").pad_left(8, ' ')));
    assert_eq!(s.as_str(), "string: [test    ]");

    let s: CompileArgs<64> =
        CompileArgs::format(&bracketed_str(arg, clip(4, "-").pad_right(8, ' ')));
    assert_eq!(s.as_str(), "string: [   test-]");

    let s: CompileArgs<64> =
        CompileArgs::format(&bracketed_str(arg, clip(4, "…").pad_center(8, ' ')));
    assert_eq!(s.as_str(), "string: [ test…  ]");

    let s: CompileArgs<64> =
        CompileArgs::format(&bracketed_str(arg, clip(4, "…").pad_left(8, '💣')));
    assert_eq!(s.as_str(), "string: [test…💣💣💣]");
    let s: CompileArgs<64> =
        CompileArgs::format(&bracketed_str(arg, clip(4, "…").pad_center(8, 'ß')));
    assert_eq!(s.as_str(), "string: [ßtest…ßß]");

    let s: CompileArgs<64> =
        CompileArgs::format(&bracketed_str(arg, clip(4, "…").pad_left(4, ' ')));
    assert_eq!(s.as_str(), "string: [test…]");
}

#[test]
fn ascii_strings() {
    let s: CompileArgs<11> = CompileArgs::format(&[
        ArgumentWrapper::new("ASCII: ").into_argument(),
        ArgumentWrapper::new(Ascii::new("test")).into_argument(),
    ]);
    assert_eq!(s.as_str(), "ASCII: test");

    let s: CompileArgs<25> = CompileArgs::format(&[
        ArgumentWrapper::new("ASCII: ").into_argument(),
        ArgumentWrapper::new(Ascii::new("test"))
            .with_fmt(clip_ascii(16, ".."))
            .into_argument(),
    ]);
    // ^ 25 = "ASCII: ".len() + 16 + "..".len()
    assert_eq!(s.as_str(), "ASCII: test");

    let s: CompileArgs<10> = CompileArgs::format(&[
        ArgumentWrapper::new("ASCII: ").into_argument(),
        ArgumentWrapper::new(Ascii::new("test"))
            .with_fmt(clip_ascii(2, "~"))
            .into_argument(),
    ]);
    assert_eq!(s.as_str(), "ASCII: te~");
}

#[test]
fn formatting_enum() {
    #[derive(Debug)]
    enum Error {
        Number(u64),
        Tuple(usize, char),
    }

    type ErrorArgs = CompileArgs<54>;

    impl Error {
        fn fmt(&self) -> ErrorArgs {
            match *self {
                Self::Number(number) => CompileArgs::format(&[
                    ArgumentWrapper::new("failed with number ").into_argument(),
                    ArgumentWrapper::new(number).with_fmt(fmt::<u64>()).into_argument(),
                ]),
                Self::Tuple(pos, ch) => CompileArgs::format(&[
                    ArgumentWrapper::new("failed at position ").into_argument(),
                    ArgumentWrapper::new(pos).with_fmt(fmt::<usize>()).into_argument(),
                    ArgumentWrapper::new(" on char '").into_argument(),
                    ArgumentWrapper::new(ch).with_fmt(fmt::<char>()).into_argument(),
                    ArgumentWrapper::new('\'').into_argument(),
                ]),
            }
        }
    }

    let err = Error::Number(123).fmt();
    let args: CompileArgs<69> = CompileArgs::format(&[
        ArgumentWrapper::new("Runtime error: ").into_argument(),
        ArgumentWrapper::new(&err).with_fmt(fmt::<&ErrorArgs>()).into_argument(),
    ]);
    assert_eq!(args.as_str(), "Runtime error: failed with number 123");
    let err = Error::Tuple(78643, 'ß');
    let err_args = err.fmt();
    let args: CompileArgs<69> = CompileArgs::format(&[
        ArgumentWrapper::new("Runtime error: ").into_argument(),
        ArgumentWrapper::new(&err_args).with_fmt(fmt::<&ErrorArgs>()).into_argument(),
    ]);
    assert_eq!(
        args.as_str(),
        "Runtime error: failed at position 78643 on char 'ß'"
    );
}
