//! Format specifications: per-type maximum lengths and capacity planning.

use compile_fmt::{clip, fmt, MaxLength};

#[test]
fn max_length_bound_is_correct() {
    assert_eq!(<u8 as MaxLength>::max_length().bytes, u8::MAX.to_string().len());
    assert_eq!(<u16 as MaxLength>::max_length().bytes, u16::MAX.to_string().len());
    assert_eq!(<u32 as MaxLength>::max_length().bytes, u32::MAX.to_string().len());
    assert_eq!(<u64 as MaxLength>::max_length().bytes, u64::MAX.to_string().len());
    assert_eq!(<u128 as MaxLength>::max_length().bytes, u128::MAX.to_string().len());
    assert_eq!(<usize as MaxLength>::max_length().bytes, usize::MAX.to_string().len());

    assert_eq!(<i8 as MaxLength>::max_length().bytes, i8::MIN.to_string().len());
    assert_eq!(<i16 as MaxLength>::max_length().bytes, i16::MIN.to_string().len());
    assert_eq!(<i32 as MaxLength>::max_length().bytes, i32::MIN.to_string().len());
    assert_eq!(<i64 as MaxLength>::max_length().bytes, i64::MIN.to_string().len());
    assert_eq!(<i128 as MaxLength>::max_length().bytes, i128::MIN.to_string().len());
    assert_eq!(<isize as MaxLength>::max_length().bytes, isize::MIN.to_string().len());
}

#[test]
fn capacity_for_padded_format() {
    let format = fmt::<u8>().pad_right(8, ' ');
    assert_eq!(format.capacity(), 8);
    let format = fmt::<u8>().pad_right(8, 'ℝ');
    assert_eq!(format.capacity(), 24); // each padding char is 3 bytes
    let format = fmt::<u64>().pad_right(8, ' ');
    assert_eq!(format.capacity(), u64::MAX.to_string().len()); // original capacity

    let format = clip(8, "").pad_left(8, ' ');
    assert_eq!(format.capacity.chars, 8);
    assert_eq!(format.capacity.bytes, 32);
    assert_eq!(format.capacity(), 32);

    let format = clip(4, "").pad_left(8, ' ');
    assert_eq!(format.capacity.chars, 4);
    assert_eq!(format.capacity.bytes, 16);
    assert_eq!(format.capacity(), 20); // 16 + 4 padding chars

    let format = clip(4, "").pad_left(8, 'ß');
    assert_eq!(format.capacity.chars, 4);
    assert_eq!(format.capacity.bytes, 16);
    assert_eq!(format.capacity(), 24); // 16 + 4 padding chars * 2 bytes each

    let format = clip(4, "…").pad_left(8, ' ');
    assert_eq!(format.capacity.chars, 5);
    assert_eq!(format.capacity.bytes, 16 + "…".len());
    assert_eq!(format.capacity(), 23); // 20 (5 chars * 4 bytes) + 3 padding chars * 4 bytes each
}
