use nbc_clustering::drawer::PlotType;
use nbc_clustering::evaluation::{
    get_number_of_groups, get_unique_values_count, merge_data, rand_index, Agreement,
};
use nbc_clustering::records::{
    is_complete_record, is_dataset_name, is_noise, is_record_line, split_fields,
};
use nbc_clustering::settings::{check_point_count, parse_args, SettingsError};
use std::collections::BTreeMap;

#[test]
fn unique_values_are_counted_once() {
    assert_eq!(get_unique_values_count(&vec![]), 0);
    assert_eq!(get_unique_values_count(&vec![3]), 1);
    assert_eq!(get_unique_values_count(&vec![0, 1, 0, -1, 1, 1]), 3);
    assert_eq!(get_unique_values_count(&vec![5, 5, 5, 5]), 1);
}

#[test]
fn rand_index_counts_the_matching_rows_among_all() {
    let clustered = vec![0, 0, 1, 1, 2];
    let original = vec![0, 1, 1, 1, 2];
    let same = vec![true; 5];
    assert_eq!(
        rand_index(&clustered, &original, &same),
        Some(Agreement { matching: 4, compared: 5 })
    );
    assert_eq!(
        rand_index(&vec![4], &vec![4], &vec![true]),
        Some(Agreement { matching: 1, compared: 1 })
    );
    assert_eq!(
        rand_index(&vec![0, 0], &vec![0, 1], &vec![true, true]),
        Some(Agreement { matching: 1, compared: 2 })
    );
}

#[test]
fn rand_index_of_the_last_row_counts() {
    let same = vec![true; 3];
    assert_eq!(
        rand_index(&vec![1, 1, 0], &vec![1, 1, 1], &same),
        Some(Agreement { matching: 2, compared: 3 })
    );
    assert_eq!(
        rand_index(&vec![1, 1, 1], &vec![1, 1, 1], &same),
        Some(Agreement { matching: 3, compared: 3 })
    );
}

#[test]
fn rand_index_of_empty_data_compares_nothing() {
    assert_eq!(
        rand_index(&vec![], &vec![], &vec![]),
        Some(Agreement { matching: 0, compared: 0 })
    );
}

#[test]
fn rand_index_passes_over_rows_with_different_points() {
    let clustered = vec![0, 0, 1, 1, 2];
    let original = vec![0, 0, 0, 1, 2];
    let same = vec![true, false, true, true, true];
    assert_eq!(
        rand_index(&clustered, &original, &same),
        Some(Agreement { matching: 3, compared: 4 })
    );
    let same = vec![true, true, true, true, false];
    assert_eq!(
        rand_index(&clustered, &original, &same),
        Some(Agreement { matching: 3, compared: 4 })
    );
}

#[test]
fn rand_index_refuses_different_lengths() {
    assert_eq!(rand_index(&vec![0, 1], &vec![0, 1, 2], &vec![true, true]), None);
    assert_eq!(rand_index(&vec![], &vec![0], &vec![]), None);
}

#[test]
fn merge_data_lists_the_classes_in_row_order() {
    let clusters: BTreeMap<i32, i32> = BTreeMap::from([(2, 7), (0, -1), (1, 0), (3, 7)]);
    assert_eq!(merge_data(4, &clusters), vec![-1, 0, 7, 7]);
    assert_eq!(merge_data(2, &clusters), vec![-1, 0]);
    assert_eq!(merge_data(0, &clusters), Vec::<i32>::new());
}

#[test]
fn settings_are_checked_in_order() {
    assert_eq!(parse_args(true, false, 10, 2), Ok(()));
    assert_eq!(parse_args(false, true, 1, 1), Ok(()));
    assert_eq!(parse_args(true, true, 3, 4), Ok(()));
    assert_eq!(parse_args(false, false, 10, 2), Err(SettingsError::NoInput));
    assert_eq!(parse_args(false, false, 0, 0), Err(SettingsError::NoInput));
    assert_eq!(parse_args(true, false, 0, 2), Err(SettingsError::KNotPositive));
    assert_eq!(parse_args(true, false, -4, 0), Err(SettingsError::KNotPositive));
    assert_eq!(parse_args(true, false, 1, 0), Err(SettingsError::DimensionNotPositive));
}

#[test]
fn point_count_must_exceed_k() {
    assert_eq!(check_point_count(5, 2), Ok(()));
    assert_eq!(check_point_count(3, 2), Ok(()));
    assert_eq!(check_point_count(2, 2), Err(SettingsError::TooFewPoints));
    assert_eq!(check_point_count(0, 1), Err(SettingsError::TooFewPoints));
    assert_eq!(check_point_count(5, 0), Err(SettingsError::KNotPositive));
    assert_eq!(check_point_count(5, -1), Err(SettingsError::KNotPositive));
}

#[test]
fn each_fault_has_its_message() {
    assert_eq!(
        SettingsError::NoInput.message(),
        "You must pass either dataset file or test datasets path!"
    );
    assert_eq!(SettingsError::KNotPositive.message(), "K value must be bigger than 0!");
    assert_eq!(
        SettingsError::DimensionNotPositive.message(),
        "Dataset dimension must be bigger than 0!"
    );
    assert_eq!(
        SettingsError::TooFewPoints.message(),
        "Number of coordinates must be bigger than k value!"
    );
}

#[test]
fn remarks_and_empty_lines_hold_no_record() {
    assert!(is_record_line(b"1.0,2.0,1"));
    assert!(is_record_line(b" "));
    assert!(is_record_line(b",@"));
    assert!(!is_record_line(b""));
    assert!(!is_record_line(b"@relation points"));
    assert!(!is_record_line(b"% remark"));
    assert!(!is_record_line(b"@"));
}

#[test]
fn records_are_split_at_each_comma() {
    assert_eq!(split_fields(b"1.5,2,noise"), vec![(0, 3), (4, 5), (6, 11)]);
    assert_eq!(split_fields(b"abc"), vec![(0, 3)]);
    assert_eq!(split_fields(b""), vec![(0, 0)]);
    assert_eq!(split_fields(b","), vec![(0, 0), (1, 1)]);
    assert_eq!(split_fields(b"1,,2,"), vec![(0, 1), (2, 2), (3, 4), (5, 5)]);
}

#[test]
fn noise_is_told_letter_for_letter() {
    let line = b"1.5,noise, noise,nois,noises,Noise";
    let fields = split_fields(line);
    let told: Vec<bool> = fields.iter().map(|(start, end)| is_noise(line, *start, *end)).collect();
    assert_eq!(told, vec![false, true, false, false, false, false]);
    assert!(is_noise(b"noise", 0, 5));
    assert!(!is_noise(b"noise", 0, 4));
    assert!(!is_noise(b"noise", 2, 2));
}

#[test]
fn record_needs_a_number_for_each_coordinate_and_the_class() {
    assert!(is_complete_record(3, 3, 2));
    assert!(is_complete_record(1, 1, 0));
    assert!(!is_complete_record(2, 2, 2));
    assert!(!is_complete_record(4, 4, 2));
    assert!(!is_complete_record(0, 0, 0));
    assert!(!is_complete_record(0, 0, usize::MAX));
}

#[test]
fn record_with_a_field_that_holds_no_number_is_not_complete() {
    // Four fields of which three hold a number, as in `1,x,2,3`.
    assert!(!is_complete_record(4, 3, 2));
    assert!(!is_complete_record(3, 2, 2));
    assert!(!is_complete_record(3, 2, 1));
    assert_eq!(split_fields(b"1,x,2,3").len(), 4);
}

#[test]
fn groups_are_counted_for_both_labellings() {
    let clustered = vec![0, 0, 1, -1, 2, 2];
    let original = vec![1, 1, 1, 2, 2, 2];
    assert_eq!(get_number_of_groups(&clustered, &original), (2, 4));
    assert_eq!(get_number_of_groups(&vec![], &vec![7]), (1, 0));
}

#[test]
fn desktop_files_are_no_datasets() {
    assert!(is_dataset_name(b"data/dataset1.txt"));
    assert!(is_dataset_name(b""));
    assert!(is_dataset_name(b"DS_Stor"));
    assert!(is_dataset_name(b"data/ds_store"));
    assert!(!is_dataset_name(b"DS_Store"));
    assert!(!is_dataset_name(b"data/.DS_Store"));
    assert!(!is_dataset_name(b"data/.DS_Store.txt"));
    assert!(!is_dataset_name(b"DDS_Store"));
}

#[test]
fn plots_have_their_captions() {
    assert_eq!(PlotType::OriginalDataset.as_str(), "Original clustered dataset");
    assert_eq!(PlotType::NbcResult.as_str(), "NBC results");
}
