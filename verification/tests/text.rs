use evaluator::text::{
    get_leaderboard_name_official, get_leaderboard_name_workshop, get_level_filename_no_ext,
    push_decimal,
};

#[test]
fn decimal_numbers_have_no_sign_or_leading_zero() {
    let mut text = String::from("n=");
    push_decimal(&mut text, 0);
    text.push(',');
    push_decimal(&mut text, 7);
    text.push(',');
    push_decimal(&mut text, 10);
    text.push(',');
    push_decimal(&mut text, 233610);
    text.push(',');
    push_decimal(&mut text, u64::MAX);
    assert_eq!(text, "n=0,7,10,233610,18446744073709551615");
}

#[test]
fn the_extension_is_taken_off() {
    assert_eq!(get_level_filename_no_ext("canyon.bytes"), "canyon");
    assert_eq!(get_level_filename_no_ext("canyon"), "canyon");
    assert_eq!(get_level_filename_no_ext("canyon.bytes.txt"), "canyon.bytes.txt");
    assert_eq!(get_level_filename_no_ext(""), "");
    assert_eq!(get_level_filename_no_ext(".bytes"), "");
    assert_eq!(get_level_filename_no_ext("bytes"), "bytes");
}

#[test]
fn a_repeated_extension_is_taken_off_whole() {
    assert_eq!(get_level_filename_no_ext("canyon.bytes.bytes"), "canyon");
    assert_eq!(get_level_filename_no_ext("a.bytes.b.bytes"), "a.bytes.b");
    assert_eq!(
        get_level_filename_no_ext("canyon.bytes.bytes"),
        "canyon.bytes.bytes".trim_end_matches(".bytes")
    );
}

#[test]
fn file_names_need_not_be_ascii() {
    assert_eq!(get_level_filename_no_ext("caña\u{1F600}.bytes"), "caña\u{1F600}");
    assert_eq!(get_level_filename_no_ext("ｂｙｔｅｓ.bytes"), "ｂｙｔｅｓ");
}

#[test]
fn official_names_have_no_creator() {
    assert_eq!(get_leaderboard_name_official("LevelA", 1), "LevelA_1_stable");
    assert_eq!(get_leaderboard_name_official("", 0), "_0_stable");
    assert_eq!(get_leaderboard_name_official("Broken Symmetry", 255), "Broken Symmetry_255_stable");
}

#[test]
fn workshop_names_carry_the_creator() {
    assert_eq!(
        get_leaderboard_name_workshop("canyon", 1, "76561198000000000"),
        "canyon_1_76561198000000000_stable"
    );
    assert_eq!(get_leaderboard_name_workshop("a", 12, ""), "a_12__stable");
}
