use takzero::checkpoint::{checkpoint_step, file_name, file_name_bytes};

#[test]
fn file_names_are_zero_padded() {
    assert_eq!(file_name(0), "000000_steps.ot");
    assert_eq!(file_name(42), "000042_steps.ot");
    assert_eq!(file_name(123456), "123456_steps.ot");
    assert_eq!(file_name(1234567), "1234567_steps.ot");
    assert_eq!(file_name_bytes(7), b"000007_steps.ot".to_vec());
}

#[test]
fn step_read_back_from_name() {
    for n in [0u64, 9, 10, 999_999, 1_000_000, u64::MAX] {
        assert_eq!(checkpoint_step(&file_name_bytes(n)), Some(n));
    }
    assert_eq!(checkpoint_step(&b"12_steps.ot".to_vec()), Some(12));
}

#[test]
fn malformed_names_have_no_step() {
    assert_eq!(checkpoint_step(&b"_steps.ot".to_vec()), None);
    assert_eq!(checkpoint_step(&b"12a_steps.ot".to_vec()), None);
    assert_eq!(checkpoint_step(&b"000012_steps.pt".to_vec()), None);
    assert_eq!(checkpoint_step(&b"18446744073709551616_steps.ot".to_vec()), None);
}
