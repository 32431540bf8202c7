use ftldat::calculate_path_hash;

#[test]
fn calculated_path_hash_is_correct_for_sample_1() {
    let result = calculate_path_hash("test1.txt");
    assert_eq!(157232055, result);
}

#[test]
fn calculated_path_hash_is_correct_for_sample_2() {
    let result = calculate_path_hash("audio/music/bp_MUS_CivilBATTLE.ogg");
    assert_eq!(1735861093, result);
}

#[test]
fn path_hash_is_case_insensitive() {
    assert_eq!(
        calculate_path_hash("TEST1.TXT"),
        calculate_path_hash("test1.txt")
    );
}

#[test]
fn path_hash_of_empty_path_is_zero() {
    assert_eq!(0, calculate_path_hash(""));
}
