use symcc_fuzzing_helper::afl::{AflMap, AflShowmapResult, BitMap, EdgeMap};
use symcc_fuzzing_helper::state::State;
use symcc_fuzzing_helper::testcase::{
    best_testcase, copy_destinations, decimal_digits, Destination, decimal_digits_padded, insert_input_file, process_new_testcase,
    uses_standard_input, NameError, TestcaseDir, TestcaseResult, TestcaseScore,
};

#[test]
fn test_score_ordering() {
    let min_score = TestcaseScore::minimum();
    assert!(
        TestcaseScore {
            new_coverage: true,
            ..TestcaseScore::minimum()
        } > min_score
    );
    assert!(
        TestcaseScore {
            derived_from_seed: true,
            ..TestcaseScore::minimum()
        } > min_score
    );
    assert!(
        TestcaseScore {
            file_size: -4,
            ..TestcaseScore::minimum()
        } > min_score
    );
    assert!(
        TestcaseScore {
            base_name: b"foo".to_vec(),
            ..TestcaseScore::minimum()
        } > min_score
    );
}

#[test]
fn score_from_name_and_size() {
    let s = TestcaseScore::new(Some(10), Some(b"id:000001,orig:seed,+cov".to_vec()));
    assert!(s.new_coverage);
    assert!(s.derived_from_seed);
    assert_eq!(s.file_size, -10);
    assert_eq!(s.base_name, b"id:000001,orig:seed,+cov".to_vec());
    let t = TestcaseScore::new(Some(10), Some(b"id:000002,src:000001".to_vec()));
    assert!(!t.new_coverage && !t.derived_from_seed);
    assert_eq!(TestcaseScore::new(None, Some(b"x".to_vec())), TestcaseScore::minimum());
    assert_eq!(TestcaseScore::new(Some(3), None), TestcaseScore::minimum());
}

#[test]
fn score_comparison_matches_derived_order() {
    let a = TestcaseScore::new(Some(10), Some(b"id:1".to_vec()));
    let b = TestcaseScore::new(Some(5), Some(b"id:2".to_vec()));
    let c = TestcaseScore::new(Some(5), Some(b"id:3".to_vec()));
    assert!(a.is_below(&b));
    assert!(b.is_below(&c));
    assert!(!c.is_below(&b));
    assert_eq!(a.is_below(&b), a < b);
    assert_eq!(c.is_below(&b), c < b);
}

#[test]
fn best_testcase_picks_last_maximum() {
    let scores = vec![
        TestcaseScore::new(Some(5), Some(b"a".to_vec())),
        TestcaseScore::new(Some(5), Some(b"b,+cov".to_vec())),
        TestcaseScore::new(Some(1), Some(b"c".to_vec())),
        TestcaseScore::new(Some(5), Some(b"b,+cov".to_vec())),
    ];
    assert_eq!(best_testcase(&scores), Some(3));
    assert_eq!(best_testcase(&Vec::new()), None);
}

#[test]
fn decimal_formatting() {
    assert_eq!(decimal_digits(0), b"0".to_vec());
    assert_eq!(decimal_digits(18446744073709551615), b"18446744073709551615".to_vec());
    assert_eq!(decimal_digits_padded(42, 6), b"000042".to_vec());
    assert_eq!(decimal_digits_padded(1234567, 6), b"1234567".to_vec());
}

#[test]
fn testcase_names() {
    let mut dir = TestcaseDir::new(std::path::PathBuf::from("/tmp/queue"));
    assert_eq!(
        dir.testcase_name("id:000123,src:000001,op:havoc"),
        Ok(b"id:000000,src:000123".to_vec())
    );
    dir.advance();
    dir.advance();
    assert_eq!(dir.testcase_name("id:abcdef"), Ok(b"id:000002,src:abcdef".to_vec()));
    assert_eq!(dir.testcase_name("orig:seed"), Err(NameError::NoIdPrefix));
    assert_eq!(dir.testcase_name("id:12"), Err(NameError::NoProperId));
    assert_eq!(dir.testcase_name("id:12345\u{e9}"), Err(NameError::NoProperId));
    assert_eq!(dir.path, std::path::PathBuf::from("/tmp/queue"));
}

#[test]
fn input_file_insertion() {
    let cmd: Vec<Vec<u8>> = vec![b"./prog".to_vec(), b"@@".to_vec(), b"-x".to_vec(), b"@@".to_vec()];
    let fixed = insert_input_file(&cmd, &b"/tmp/in".to_vec());
    assert_eq!(fixed, vec![b"./prog".to_vec(), b"/tmp/in".to_vec(), b"-x".to_vec(), b"@@".to_vec()]);
    assert!(!uses_standard_input(&cmd));
    let plain: Vec<Vec<u8>> = vec![b"./prog".to_vec()];
    assert_eq!(insert_input_file(&plain, &b"/tmp/in".to_vec()), plain);
    assert!(uses_standard_input(&plain));
}

#[test]
fn testcase_evaluation() {
    let mut state = State::new(EdgeMap::new());
    let report = AflShowmapResult::Success(Box::new(AflMap {
        data: Some(vec![0, 1]),
        bb_bitmap: Some(BitMap(vec![1])),
    }));
    assert_eq!(process_new_testcase(&mut state, report), Ok(TestcaseResult::New));
    let again = AflShowmapResult::Success(Box::new(AflMap {
        data: Some(vec![0, 1]),
        bb_bitmap: Some(BitMap(vec![1])),
    }));
    assert_eq!(process_new_testcase(&mut state, again), Ok(TestcaseResult::Uninteresting));
    assert_eq!(process_new_testcase(&mut state, AflShowmapResult::Hang), Ok(TestcaseResult::Hang));
    assert_eq!(process_new_testcase(&mut state, AflShowmapResult::Crash), Ok(TestcaseResult::Crash));
}

#[test]
fn testcase_destinations() {
    assert_eq!(copy_destinations(&TestcaseResult::Uninteresting), vec![]);
    assert_eq!(copy_destinations(&TestcaseResult::New), vec![Destination::Queue]);
    assert_eq!(copy_destinations(&TestcaseResult::Hang), vec![Destination::Hangs]);
    assert_eq!(
        copy_destinations(&TestcaseResult::Crash),
        vec![Destination::Crashes, Destination::Queue]
    );
}
