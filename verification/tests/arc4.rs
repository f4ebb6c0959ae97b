use bingo_gen::Arc4;

#[test]
fn arc4_test() {
    let arc4 = Arc4::new(&[57, 48, 49, 54, 50, 51], 256);
    let expected: Vec<u8> = vec![
        250, 175, 217, 198, 168, 238, 130, 229, 71, 241, 225, 255, 206, 98, 13, 179, 74, 149, 143,
        81, 139, 224, 62, 254, 107, 39, 97, 135, 210, 32, 22, 14, 248, 21, 239, 142, 104, 153, 63,
        146, 126, 128, 54, 59, 35, 159, 243, 83, 144, 23, 44, 110, 174, 69, 29, 184, 176, 158, 47,
        53, 90, 82, 77, 154, 228, 96, 150, 165, 191, 193, 246, 185, 131, 37, 132, 189, 18, 94,
        127, 67, 252, 109, 207, 95, 43, 186, 78, 202, 45, 220, 115, 169, 218, 27, 232, 155, 88,
        25, 61, 51, 24, 253, 1, 177, 162, 26, 10, 221, 65, 233, 197, 160, 211, 148, 19, 234, 157,
        227, 70, 151, 214, 216, 15, 7, 201, 12, 108, 0, 73, 36, 145, 208, 124, 101, 34, 125, 163,
        240, 68, 41, 230, 9, 87, 156, 209, 161, 56, 170, 212, 133, 84, 121, 48, 5, 66, 89, 192,
        181, 93, 231, 190, 55, 100, 236, 178, 105, 122, 247, 242, 111, 3, 50, 30, 134, 245, 123,
        113, 147, 152, 136, 180, 183, 85, 120, 164, 118, 52, 140, 119, 114, 141, 106, 86, 28, 219,
        187, 172, 215, 188, 203, 200, 235, 244, 103, 38, 112, 33, 205, 75, 72, 204, 76, 92, 129,
        116, 58, 226, 237, 173, 8, 60, 137, 42, 223, 40, 195, 31, 49, 167, 196, 194, 251, 2, 4,
        11, 79, 171, 213, 182, 80, 102, 222, 64, 166, 117, 6, 57, 249, 16, 46, 199, 138, 99, 20,
        91, 17,
    ];
    assert_eq!(arc4.table(), &expected);
    assert_eq!(arc4.cursor_i(), 0);
    assert_eq!(arc4.cursor_j(), 139);
    assert_eq!(arc4.width(), 256);
}

#[test]
fn generate_is_bounded_and_advances() {
    let mut arc4 = Arc4::new(&[57, 48, 49, 54, 50, 51], 256);
    let one = arc4.generate(1);
    assert!(one < 256);
    let six = arc4.generate(6);
    assert!(six < 256u64.pow(6));
}

#[test]
fn empty_key_acts_as_zero_key() {
    let a = Arc4::new(&[], 256);
    let b = Arc4::new(&[0], 256);
    assert_eq!(a.table(), b.table());
    assert_eq!(a.cursor_i(), b.cursor_i());
    assert_eq!(a.cursor_j(), b.cursor_j());
}
