use muninn_daemon::annexb::{
    access_unit_references_previous_frame, annex_b_nal_units, find_annex_b_start_code,
    h264_access_unit_has_reference_vcl, h264_annex_b_access_units, h264_first_mb_in_slice,
    h264_nal_ref_idc, h264_nal_type, h265_annex_b_access_units, h265_first_slice_segment_in_pic,
    h265_nal_type, is_h264_vcl_nal, is_h265_irap_nal, is_h265_pre_vcl_boundary_nal,
    is_h265_vcl_nal, video_annex_b_access_units, VideoAccessUnit,
};
use muninn_daemon::bits::{h264_ebsp_to_rbsp, read_unsigned_exp_golomb, BitReader};
use muninn_daemon::codec::{normalized_video_codec, VideoCodec, VideoFamily};
use muninn_daemon::error::{MediaError, Refusal};
use muninn_daemon::text::{decimal, fold, spells};

#[test]
fn codec_names_ignore_case_and_white_space() {
    for name in ["h264", "h.264", "avc", "avc1", "video/avc", " H264\t", "Video/AVC", "\u{3000}AVC1\n"] {
        assert_eq!(normalized_video_codec(name), Some(VideoCodec::H264), "{name:?}");
    }
    for name in ["h265", "h.265", "hevc", "hev1", "hvc1", "video/hevc", "HEVC ", "Hvc1"] {
        assert_eq!(normalized_video_codec(name), Some(VideoCodec::H265), "{name:?}");
    }
    for name in ["av1", "av01", "video/av1", "AV1", " av01 "] {
        assert_eq!(normalized_video_codec(name), Some(VideoCodec::Av1), "{name:?}");
    }
    for name in ["", " ", "vp9", "h 264", "h264x", "\u{212A}"] {
        assert_eq!(normalized_video_codec(name), None, "{name:?}");
    }
}

#[test]
fn folding_trims_and_lowers_ascii_only() {
    assert_eq!(fold("\u{a0} A\u{c4}b Z\u{85}").into_iter().collect::<String>(), "a\u{c4}b z");
    assert_eq!(fold("  \t").len(), 0);
    assert!(spells(&fold(" HeVc "), "hevc"));
    assert!(!spells(&fold("hev"), "hevc"));
    assert!(!spells(&fold("hevd"), "hevc"));
}

#[test]
fn decimal_has_no_leading_zeros() {
    assert_eq!(decimal(0), "0");
    assert_eq!(decimal(9), "9");
    assert_eq!(decimal(10), "10");
    assert_eq!(decimal(65_535), "65535");
    assert_eq!(decimal(u64::MAX), "18446744073709551615");
}

#[test]
fn emulation_prevention_bytes_are_dropped() {
    assert_eq!(h264_ebsp_to_rbsp(&[]), Vec::<u8>::new());
    assert_eq!(h264_ebsp_to_rbsp(&[0, 0, 3, 1]), vec![0, 0, 1]);
    assert_eq!(h264_ebsp_to_rbsp(&[0, 0, 3, 3, 0, 0, 0, 3]), vec![0, 0, 3, 0, 0, 0]);
    assert_eq!(h264_ebsp_to_rbsp(&[0, 0, 3, 0, 0, 3]), vec![0, 0, 0, 0]);
    assert_eq!(h264_ebsp_to_rbsp(&[0, 3, 0, 0, 1]), vec![0, 3, 0, 0, 1]);
    let mut long = vec![0_u8; 300];
    long.push(3);
    assert_eq!(h264_ebsp_to_rbsp(&long), vec![0_u8; 300]);
}

#[test]
fn unguarded_payloads_stay_as_they_are() {
    let payload = [9, 0, 3, 0, 0, 2, 3, 0, 1];
    assert_eq!(h264_ebsp_to_rbsp(&payload), payload.to_vec());
}

#[test]
fn bits_are_read_from_the_most_significant_on() {
    let bytes = [0b1010_0001, 0b1000_0000];
    let mut reader = BitReader::new(&bytes);
    let mut bits = Vec::new();
    while let Some(bit) = reader.read_bit() {
        bits.push(bit);
    }
    assert_eq!(bits, vec![1, 0, 1, 0, 0, 0, 0, 1, 1, 0, 0, 0, 0, 0, 0, 0]);
    assert_eq!(reader.read_bit(), None);
}

#[test]
fn exp_golomb_codes_are_read() {
    assert_eq!(read_unsigned_exp_golomb(&[0b1000_0000]), Some(0));
    assert_eq!(read_unsigned_exp_golomb(&[0b0100_0000]), Some(1));
    assert_eq!(read_unsigned_exp_golomb(&[0b0110_0000]), Some(2));
    assert_eq!(read_unsigned_exp_golomb(&[0b0010_1000]), Some(4));
    assert_eq!(read_unsigned_exp_golomb(&[0b0001_1110]), Some(14));
    assert_eq!(read_unsigned_exp_golomb(&[]), None);
    assert_eq!(read_unsigned_exp_golomb(&[0b0000_0000]), None);
    assert_eq!(read_unsigned_exp_golomb(&[0b0000_0001]), None);
    let mut widest = vec![0_u8; 7];
    widest.push(1);
    widest.extend_from_slice(&[0xff; 8]);
    assert_eq!(read_unsigned_exp_golomb(&widest), Some(u64::MAX - 1));
    let mut too_wide = vec![0_u8; 8];
    too_wide.extend_from_slice(&[0xff; 9]);
    assert_eq!(read_unsigned_exp_golomb(&too_wide), None);
}

#[test]
fn start_codes_are_found_in_both_lengths() {
    assert_eq!(find_annex_b_start_code(&[9, 0, 0, 1, 5], 0), Some((1, 3)));
    assert_eq!(find_annex_b_start_code(&[0, 0, 0, 1, 5], 0), Some((0, 4)));
    assert_eq!(find_annex_b_start_code(&[0, 0, 0, 1, 5], 1), Some((1, 3)));
    assert_eq!(find_annex_b_start_code(&[0, 0, 0, 0, 1], 0), Some((1, 4)));
    assert_eq!(find_annex_b_start_code(&[0, 0, 1], 1), None);
    assert_eq!(find_annex_b_start_code(&[0, 0, 0], 0), None);
    assert_eq!(find_annex_b_start_code(&[], 0), None);
    assert_eq!(find_annex_b_start_code(&[0, 0, 1], usize::MAX), None);
}

#[test]
fn nal_headers_are_read() {
    assert_eq!(h264_nal_type(&[]), None);
    assert_eq!(h264_nal_type(&[0x65]), Some(5));
    assert_eq!(h264_nal_ref_idc(&[]), 0);
    assert_eq!(h264_nal_ref_idc(&[0x65]), 3);
    assert_eq!(h264_nal_ref_idc(&[0x01]), 0);
    assert_eq!(h265_nal_type(&[0x26]), None);
    assert_eq!(h265_nal_type(&[0x26, 0x01]), Some(19));
    assert_eq!(h264_first_mb_in_slice(&[0x65]), None);
    assert_eq!(h264_first_mb_in_slice(&[0x65, 0x80]), Some(0));
    assert_eq!(h264_first_mb_in_slice(&[0x65, 0x40]), Some(1));
    assert_eq!(h265_first_slice_segment_in_pic(&[0x26, 0x01]), None);
    assert_eq!(h265_first_slice_segment_in_pic(&[0x26, 0x01, 0x80]), Some(true));
    assert_eq!(h265_first_slice_segment_in_pic(&[0x26, 0x01, 0x7f]), Some(false));
    assert!(!is_h264_vcl_nal(0) && is_h264_vcl_nal(1) && is_h264_vcl_nal(5) && !is_h264_vcl_nal(6));
    assert!(is_h265_vcl_nal(0) && is_h265_vcl_nal(31) && !is_h265_vcl_nal(32));
    assert!(!is_h265_irap_nal(15) && is_h265_irap_nal(16) && is_h265_irap_nal(21) && !is_h265_irap_nal(22));
    assert!(is_h265_pre_vcl_boundary_nal(32) && is_h265_pre_vcl_boundary_nal(34));
    assert!(!is_h265_pre_vcl_boundary_nal(35) && !is_h265_pre_vcl_boundary_nal(38));
    assert!(is_h265_pre_vcl_boundary_nal(39) && is_h265_pre_vcl_boundary_nal(40));
    assert!(!is_h265_pre_vcl_boundary_nal(41));
}

#[test]
fn nal_units_without_a_header_are_passed_over() {
    let stream = [0, 0, 1, 0x65, 0x80, 0, 0, 1, 0, 0, 1, 0x41];
    let nals = annex_b_nal_units(&stream, VideoFamily::H264).unwrap();
    assert_eq!(nals.len(), 2);
    assert_eq!((nals[0].start, nals[0].payload_start, nals[0].end, nals[0].nal_type), (0, 3, 5, 5));
    assert_eq!((nals[1].start, nals[1].payload_start, nals[1].end, nals[1].nal_type), (8, 11, 12, 1));
    let nals = annex_b_nal_units(&stream, VideoFamily::H265).unwrap();
    assert_eq!(nals.len(), 1);
}

#[test]
fn streams_without_nal_units_are_refused() {
    for (bytes, expected, text) in [
        (
            vec![],
            Refusal::NoStartCodes(VideoFamily::H264),
            "H.264 Annex B stream has no start codes",
        ),
        (
            vec![1, 2, 3, 4],
            Refusal::NoStartCodes(VideoFamily::H264),
            "H.264 Annex B stream has no start codes",
        ),
        (
            vec![0, 0, 1],
            Refusal::NoNalPayloads(VideoFamily::H264),
            "H.264 Annex B stream has no NAL payloads",
        ),
    ] {
        let error = h264_annex_b_access_units(&bytes).unwrap_err();
        assert_eq!(error, MediaError::Refused(expected));
        assert_eq!(error.message(), text);
    }
    let error = h265_annex_b_access_units(&[7]).unwrap_err();
    assert_eq!(error.message(), "H.265 Annex B stream has no start codes");
    let error = h265_annex_b_access_units(&[0, 0, 1, 0x26]).unwrap_err();
    assert_eq!(error.message(), "H.265 Annex B stream has no NAL payloads");
    let error = video_annex_b_access_units("AV01", &[]).unwrap_err();
    assert_eq!(error, MediaError::Refused(Refusal::Av1IsNotAnnexB));
    let error = video_annex_b_access_units("vp9", &[]).unwrap_err();
    assert_eq!(error, MediaError::UnsupportedCodec("vp9".to_string()));
}

#[test]
fn later_slices_stay_with_their_picture() {
    let stream = [
        0, 0, 1, 0x65, 0x80, 0, 0, 1, 0x65, 0x40, 0, 0, 1, 0x41, 0x80, 0, 0, 1, 0x06, 0x05,
    ];
    let units = h264_annex_b_access_units(&stream).unwrap();
    assert_eq!(units.len(), 2);
    assert_eq!(units[0].bytes, stream[..10].to_vec());
    assert!(units[0].keyframe);
    assert_eq!(units[1].bytes, stream[10..].to_vec());
    assert!(!units[1].keyframe);
}

#[test]
fn h265_parameter_sets_lead_the_next_picture_in() {
    let stream = [
        0, 0, 1, 0x02, 0x01, 0x80, 0, 0, 1, 0x40, 0x01, 0, 0, 1, 0x26, 0x01, 0x80, 0, 0, 1, 0x4e,
        0x01,
    ];
    let units = h265_annex_b_access_units(&stream).unwrap();
    assert_eq!(units.len(), 3);
    assert_eq!(units[0].bytes, stream[..6].to_vec());
    assert!(!units[0].keyframe);
    assert_eq!(units[1].bytes, stream[6..17].to_vec());
    assert!(units[1].keyframe);
    assert_eq!(units[2].bytes, stream[17..].to_vec());
}

#[test]
fn access_units_join_to_the_stream() {
    let stream = [
        0xaa, 0, 0, 0, 1, 0x09, 0xf0, 0, 0, 1, 0x65, 0x80, 0, 0, 0, 1, 0x09, 0xf0, 0, 0, 1, 0x41,
        0x80, 7,
    ];
    let units = h264_annex_b_access_units(&stream).unwrap();
    assert_eq!(units.len(), 2);
    let joined: Vec<u8> = units.iter().flat_map(|unit| unit.bytes.iter().copied()).collect();
    assert_eq!(joined, stream[1..].to_vec());
}

#[test]
fn references_are_told_from_disposable_slices() {
    let unit = |bytes: Vec<u8>, keyframe: bool| VideoAccessUnit { bytes, keyframe };
    assert!(!access_unit_references_previous_frame("h264", &unit(vec![0, 0, 1, 0x41, 0x80], true)));
    assert!(access_unit_references_previous_frame("h264", &unit(vec![0, 0, 1, 0x41, 0x80], false)));
    assert!(!access_unit_references_previous_frame("AVC", &unit(vec![0, 0, 1, 0x01, 0x80], false)));
    assert!(access_unit_references_previous_frame("h264", &unit(vec![1, 2, 3], false)));
    assert!(access_unit_references_previous_frame("hevc", &unit(vec![0, 0, 1, 0x01, 0x80], false)));
    assert!(access_unit_references_previous_frame("vp9", &unit(vec![], false)));
    assert_eq!(h264_access_unit_has_reference_vcl(&[0, 0, 1, 0x67, 0x42]), Ok(false));
    assert_eq!(h264_access_unit_has_reference_vcl(&[0, 0, 1, 0x01, 0, 0, 1, 0x21]), Ok(true));
    assert_eq!(
        h264_access_unit_has_reference_vcl(&[]),
        Err(MediaError::Refused(Refusal::NoStartCodes(VideoFamily::H264)))
    );
}
