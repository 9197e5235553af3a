use robco_backdoor::dict::get_dict_path;

#[test]
fn dict_paths_cover_lengths_four_to_fifteen() {
    assert_eq!(get_dict_path(4), Some("./data/ve-4.txt".to_string()));
    assert_eq!(get_dict_path(5), Some("./data/ve-5.txt".to_string()));
    assert_eq!(get_dict_path(6), Some("./data/e-6.txt".to_string()));
    assert_eq!(get_dict_path(7), Some("./data/e-7.txt".to_string()));
    assert_eq!(get_dict_path(8), Some("./data/e-8.txt".to_string()));
    assert_eq!(get_dict_path(9), Some("./data/a-9.txt".to_string()));
    assert_eq!(get_dict_path(10), Some("./data/a-10.txt".to_string()));
    assert_eq!(get_dict_path(11), Some("./data/h-11.txt".to_string()));
    assert_eq!(get_dict_path(12), Some("./data/h-12.txt".to_string()));
    assert_eq!(get_dict_path(13), Some("./data/vh-13.txt".to_string()));
    assert_eq!(get_dict_path(14), Some("./data/vh-14.txt".to_string()));
    assert_eq!(get_dict_path(15), Some("./data/vh-15.txt".to_string()));
}

#[test]
fn dict_paths_reject_other_lengths() {
    assert_eq!(get_dict_path(0), None);
    assert_eq!(get_dict_path(3), None);
    assert_eq!(get_dict_path(16), None);
    assert_eq!(get_dict_path(100), None);
}
