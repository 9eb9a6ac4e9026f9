use symphony::decimal::Dec;
use symphony::profile::Error;
use symphony::profile::ModelProfile;
use symphony::profile::ProfileEntry;
use symphony::utils::AvgStd;

fn dec(neg: bool, mant: u64, scale: i32) -> Dec {
    Dec { neg, mant, scale }
}

#[test]
fn parse_profile_entry() {
    // Should tolerate empty spaces.
    assert_eq!(
        ProfileEntry::from_text(b" 12, 88794.6, 2243.51,8054112256, 10 ").unwrap(),
        ProfileEntry {
            batch_size: 12,
            latency: AvgStd {
                avg: dec(false, 887946, -7),
                std: dec(false, 224351, -8),
            },
            memory: 8054112256,
            num_repeats: 10
        }
    );

    // More fields than expected.
    assert!(ProfileEntry::from_text(b"12, 88794.6, 2243.51,8054112256, 10, ").is_err());

    // Fewer fields than expected.
    assert!(ProfileEntry::from_text(b"12, 88794.6, 2243.51,8054112256").is_err());

    // Type mismatches.
    assert!(ProfileEntry::from_text(b"12.3, 88794.6, 2243.51, 8054112256, 10").is_err());
    assert!(ProfileEntry::from_text(b"12, avg, 2243.51, 8054112256, 10").is_err());
    assert!(ProfileEntry::from_text(b"12, 88794.6, std, 8054112256, 10").is_err());
    assert!(ProfileEntry::from_text(b"12, 88794.6, 2243.51, 8054112256.2, 10").is_err());
    assert!(ProfileEntry::from_text(b"12, 88794.6, 2243.51, 8054112256, 10.9").is_err());
}

#[test]
fn serialize_profile_entry() {
    let a = ProfileEntry::from_text(b" 12, 88794.6, 2243.51,8054112256, 10 ").unwrap();
    let s = a.to_text();
    let b = ProfileEntry::from_text(&s).unwrap();
    assert_eq!(a, b);
}

#[test]
fn entry_text_is_exact() {
    let a = ProfileEntry::from_text(b" 12, 88794.6, 2243.51,8054112256, 10 ").unwrap();
    assert_eq!(a.to_text(), b"12,88794.6,2243.51,8054112256,10".to_vec());
}

#[test]
fn entry_error_variants() {
    assert!(matches!(
        ProfileEntry::from_text(b"1,2,3"),
        Err(Error::WrongFieldCount { expected: 5, got: 3, .. })
    ));
    assert!(matches!(
        ProfileEntry::from_text(b"x,2.0,3.0,4,5"),
        Err(Error::ParseIntError)
    ));
    assert!(matches!(
        ProfileEntry::from_text(b"1,x,3.0,4,5"),
        Err(Error::ParseFloatError)
    ));
    // A mantissa beyond 64 bits is out of range, not a number.
    assert!(matches!(
        ProfileEntry::from_text(b"1,111111111111111111111111111,3.0,4,5"),
        Err(Error::ParseFloatError)
    ));
    // Exponent notation and words are not decimal literals.
    assert!(ProfileEntry::from_text(b"1,1e5,3.0,4,5").is_err());
    assert!(ProfileEntry::from_text(b"1,inf,3.0,4,5").is_err());
    assert!(ProfileEntry::from_text(b"1,,3.0,4,5").is_err());
}

#[test]
fn parse_and_serialize_profile() {
    let txt = r#"
            tensorflow:resnet_0:1
            Tesla_K80
            cfd0ec64-4978-7096-f391-921f9c5c5d27
            Forward latency
            batch,latency(us),std(us),memory(B),repeat
            1,20232.7,638.153,8054112256,10
            2,26258.7,605.536,8054112256,10
            3,31336.5,757.278,8054112256,10
            4,42357.3,8079.06,8054112256,10
            5,45092.0,647.367,8054112256,10
            Preprocess latency (mean,std,repeat)
            1073.2,107.746,901
            Postprocess latency (mean,std,repeat)
            7.888,1.335,2000
        "#;

    // Parsing
    let profile = ModelProfile::from_text(txt.as_bytes()).unwrap();
    assert_eq!(profile.framework, b"tensorflow".to_vec());
    assert_eq!(profile.model, b"resnet_0".to_vec());
    assert_eq!(profile.version, b"1".to_vec());
    assert_eq!(profile.gpu_model, b"Tesla_K80".to_vec());
    assert_eq!(
        profile.gpu_uuid,
        b"cfd0ec64-4978-7096-f391-921f9c5c5d27".to_vec()
    );
    assert_eq!(profile.forwards.len(), 6);
    for i in 0..6 {
        assert_eq!(profile.forwards[i].batch_size, i as u32);
    }
    assert_eq!(profile.preproc.avg, dec(false, 10732, -7));
    assert_eq!(profile.preproc.std, dec(false, 107746, -9));
    assert_eq!(profile.preproc_repeat, 901);
    assert_eq!(profile.postproc.avg, dec(false, 7888, -9));
    assert_eq!(profile.postproc.std, dec(false, 1335, -9));
    assert_eq!(profile.postproc_repeat, 2000);

    // Serialization
    let s = profile.to_text();
    let b = ModelProfile::from_text(&s).unwrap();
    assert_eq!(profile, b);
}

#[test]
fn profile_text_reproduced_exactly() {
    // The same profile written without surrounding indentation: parsing
    // and re-serializing reproduces it byte for byte, the row for batch
    // size 1 sits at index 1, and its latency mean is 20232.7e-6 seconds.
    let txt = "tensorflow:resnet_0:1\n\
               Tesla_K80\n\
               cfd0ec64-4978-7096-f391-921f9c5c5d27\n\
               Forward latency\n\
               batch,latency(us),std(us),memory(B),repeat\n\
               1,20232.7,638.153,8054112256,10\n\
               2,26258.7,605.536,8054112256,10\n\
               Preprocess latency (mean,std,repeat)\n\
               1073.2,107.746,901\n\
               Postprocess latency (mean,std,repeat)\n\
               7.888,1.335,2000\n";
    let profile = ModelProfile::from_text(txt.as_bytes()).unwrap();
    assert_eq!(profile.forwards[1].batch_size, 1);
    assert_eq!(profile.forwards[1].latency.avg, dec(false, 202327, -7));
    assert_eq!(profile.to_text(), txt.as_bytes().to_vec());
}

#[test]
fn profile_error_variants() {
    assert!(matches!(
        ModelProfile::from_text(b""),
        Err(Error::MissingLineError)
    ));
    assert!(matches!(
        ModelProfile::from_text(b"only-one-field"),
        Err(Error::WrongFieldCount { expected: 3, .. })
    ));
    let bad_header = "tf:m:1\ngpu\nuuid\nNot the forward header\nx\n";
    assert!(matches!(
        ModelProfile::from_text(bad_header.as_bytes()),
        Err(Error::UnexpectedLine { .. })
    ));
    let truncated = "tf:m:1\ngpu\nuuid\nForward latency\n\
                     batch,latency(us),std(us),memory(B),repeat\n\
                     1,2.0,3.0,4,5";
    assert!(matches!(
        ModelProfile::from_text(truncated.as_bytes()),
        Err(Error::MissingLineError)
    ));
}

#[test]
fn avgstd_with_nstd() {
    let a = AvgStd {
        avg: dec(false, 12, -1),
        std: dec(false, 34, -1),
    };
    let x = dec(false, 56, -1);
    let res = a.avg.add(&a.std.mul(&x));
    assert_eq!(a.with_nstd(&x), res);
}

#[test]
fn avgstd_mul() {
    let a = AvgStd {
        avg: dec(false, 12, -1),
        std: dec(false, 34, -1),
    };
    let x = dec(false, 56, -1);
    let b = AvgStd {
        avg: a.avg.mul(&x),
        std: a.std.mul(&x),
    };
    assert_eq!(a.mul(&x), b);
}

#[test]
fn avgstd_mul_exact_value() {
    // 3.4 * 5.6 == 19.04 exactly.
    let a = dec(false, 34, -1);
    let x = dec(false, 56, -1);
    assert_eq!(a.mul(&x), dec(false, 1904, -2));
}

#[test]
fn dec_parse_and_format() {
    assert_eq!(Dec::from_text(b"45092.0"), Some(dec(false, 450920, -1)));
    assert_eq!(Dec::from_text(b"-1.2"), Some(dec(true, 12, -1)));
    assert_eq!(Dec::from_text(b"+12"), Some(dec(false, 12, 0)));
    assert_eq!(Dec::from_text(b"0.005"), Some(dec(false, 5, -3)));
    assert_eq!(Dec::from_text(b""), None);
    assert_eq!(Dec::from_text(b"1."), None);
    assert_eq!(Dec::from_text(b".5"), None);
    assert_eq!(Dec::from_text(b"1e5"), None);
    assert_eq!(Dec::from_text(b"NaN"), None);

    assert_eq!(dec(false, 450920, -1).to_text(), b"45092.0".to_vec());
    assert_eq!(dec(true, 12, -1).to_text(), b"-1.2".to_vec());
    assert_eq!(dec(false, 5, -3).to_text(), b"0.005".to_vec());
    assert_eq!(dec(false, 12, 2).to_text(), b"1200".to_vec());
    assert_eq!(dec(false, 7, 0).to_text(), b"7".to_vec());
}

#[test]
fn dec_round_trip_preserves_trailing_zero() {
    let d = Dec::from_text(b"45092.0").unwrap();
    assert_eq!(Dec::from_text(&d.to_text()), Some(d));
    let e = Dec::from_text(b"0.0050").unwrap();
    assert_eq!(Dec::from_text(&e.to_text()), Some(e));
}

#[test]
fn split_and_headers() {
    let fields = symphony::profile::expect_split(b" a ,b, c ", 44, 3).unwrap();
    assert_eq!(fields[0], b"a".to_vec());
    assert_eq!(fields[1], b"b".to_vec());
    assert_eq!(fields[2], b"c".to_vec());
    assert!(symphony::profile::expect_split(b"a,b", 44, 3).is_err());
    assert!(symphony::profile::expect_str(b"Forward latency", b"Forward latency").is_ok());
    assert!(symphony::profile::expect_str(b"Forward  latency", b"Forward latency").is_err());
}

#[test]
fn next_line_strips_carriage_return() {
    let (line, pos) = symphony::profile::next_line(b"abc\r\ndef", 0).unwrap();
    assert_eq!(line, b"abc".to_vec());
    let (line2, pos2) = symphony::profile::next_line(b"abc\r\ndef", pos).unwrap();
    assert_eq!(line2, b"def".to_vec());
    assert!(symphony::profile::next_line(b"abc\r\ndef", pos2).is_err());
}

#[test]
fn profile_with_crlf_endings() {
    let txt = "tf:m:1\r\nTesla_K80\r\nuuid\r\nForward latency\r\n\
               batch,latency(us),std(us),memory(B),repeat\r\n\
               1,2.0,3.0,4,5\r\n\
               Preprocess latency (mean,std,repeat)\r\n\
               1.0,2.0,3\r\n\
               Postprocess latency (mean,std,repeat)\r\n\
               4.0,5.0,6\r\n";
    let profile = ModelProfile::from_text(txt.as_bytes()).unwrap();
    assert_eq!(profile.framework, b"tf".to_vec());
    assert_eq!(profile.gpu_model, b"Tesla_K80".to_vec());
    assert_eq!(profile.forwards.len(), 2);
    assert_eq!(profile.forwards[1].memory, 4);
    assert_eq!(profile.preproc_repeat, 3);
    assert_eq!(profile.postproc_repeat, 6);
}
