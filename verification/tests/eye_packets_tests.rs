use mittens::eye_packets::{complete_eye_pair, decode_htc_layout, decode_osc, OscEyeMessage};

fn pad(out: &mut Vec<u8>, text: &str) {
    out.extend_from_slice(text.as_bytes());
    out.push(0);
    while out.len() % 4 != 0 {
        out.push(0);
    }
}

fn osc(addr: &str, tags: &str, values: &[f32]) -> Vec<u8> {
    let mut out = Vec::new();
    pad(&mut out, addr);
    pad(&mut out, tags);
    for value in values {
        out.extend_from_slice(&value.to_be_bytes());
    }
    out
}

fn bits(values: &[f32]) -> Vec<u32> {
    values.iter().map(|v| v.to_bits()).collect()
}

#[test]
fn osc_messages_decode_to_their_arguments() {
    assert_eq!(
        decode_osc(&osc("/tracking/eye/CenterVec", ",fff", &[0.0, 0.0, -1.0])),
        Some((OscEyeMessage::CenterVec, bits(&[0.0, 0.0, -1.0])))
    );
    assert_eq!(
        decode_osc(&osc("/avatar/parameters/EyesClosedAmount", ",f", &[0.4])),
        Some((OscEyeMessage::EyesClosedAmount, bits(&[0.4])))
    );
    assert_eq!(
        decode_osc(&osc("/tracking/eye/EyesClosedAmount", ",f", &[1.5])),
        Some((OscEyeMessage::EyesClosedAmount, bits(&[1.5])))
    );
    assert_eq!(
        decode_osc(&osc("/tracking/eye/LeftRightVec", ",ffffff", &[1.0, 2.0, 3.0, 4.0, 5.0, 6.0])),
        Some((OscEyeMessage::LeftRightVec, bits(&[1.0, 2.0, 3.0, 4.0, 5.0, 6.0])))
    );
    assert_eq!(
        decode_osc(&osc("/tracking/eye/LeftRightPitchYaw", ",ffff", &[0.1, 0.2, 0.3, 0.4])),
        Some((OscEyeMessage::LeftRightPitchYaw, bits(&[0.1, 0.2, 0.3, 0.4])))
    );
    let mut trailing = osc("/tracking/eye/CenterPitchYaw", ",ff", &[0.5, -0.5]);
    trailing.extend_from_slice(&[9, 9, 9]);
    assert_eq!(decode_osc(&trailing), Some((OscEyeMessage::CenterPitchYaw, bits(&[0.5, -0.5]))));
}

#[test]
fn unknown_malformed_and_non_finite_osc_is_ignored() {
    assert_eq!(decode_osc(&osc("/tracking/eye/Unknown", ",f", &[1.0])), None);
    assert_eq!(decode_osc(&osc("/tracking/eye/CenterVec", ",ff", &[1.0, 2.0])), None);
    assert_eq!(decode_osc(&osc("/tracking/eye/CenterVec", ",fff", &[1.0, f32::NAN, 2.0])), None);
    assert_eq!(decode_osc(&osc("/tracking/eye/CenterVec", ",fff", &[1.0, 2.0])), None);
    assert_eq!(decode_osc(b"/tracking/eye/CenterVec"), None);
    assert_eq!(decode_osc(&[]), None);
}

#[test]
fn htc_layout_decodes_flagged_finite_fields() {
    let mut packet = [0u8; 84];
    packet[0] = b'M';
    packet[1] = 1;
    packet[2] = 0xff;
    let mut put = |offset: usize, values: &[f32]| {
        for (index, value) in values.iter().enumerate() {
            packet[offset + index * 4..offset + index * 4 + 4].copy_from_slice(&value.to_le_bytes());
        }
    };
    put(4, &[0.0, 0.0, 0.0, 1.0]);
    put(20, &[0.0, 1.0, 0.0, 0.0]);
    put(36, &[0.25, 0.5, 0.75]);
    put(48, &[0.8, 0.6, f32::INFINITY]);
    put(60, &[3.1, 3.2]);
    put(68, &[0.1, 0.2, 0.3, 0.4]);

    let (left, right) = decode_htc_layout(&packet).expect("ALVR packet");
    assert_eq!(left.gaze, Some((0, 0, 0, 1.0f32.to_bits())));
    assert_eq!(right.gaze, Some((0, 1.0f32.to_bits(), 0, 0)));
    assert_eq!(left.openness, Some(0.25f32.to_bits()));
    assert_eq!(left.wide, Some(0.5f32.to_bits()));
    assert_eq!(left.squeeze, Some(0.75f32.to_bits()));
    assert_eq!(right.openness, Some(0.8f32.to_bits()));
    assert_eq!(right.squeeze, None);
    assert_eq!(left.pupil_diameter, Some(3.1f32.to_bits()));
    assert_eq!(right.pupil_diameter, Some(3.2f32.to_bits()));
    assert_eq!(left.position, Some((0.1f32.to_bits(), 0.2f32.to_bits())));
    assert_eq!(right.position, Some((0.3f32.to_bits(), 0.4f32.to_bits())));

    let mut unflagged = packet;
    unflagged[2] = 0x01;
    let (left, right) = decode_htc_layout(&unflagged).expect("ALVR packet");
    assert!(left.gaze.is_some());
    assert_eq!(right.gaze, None);
    assert_eq!(left.openness, None);
    assert_eq!(right.position, None);

    let mut wrong_version = packet;
    wrong_version[1] = 2;
    assert_eq!(decode_htc_layout(&wrong_version), None);
    assert_eq!(decode_htc_layout(&packet[..83]), None);
}

#[test]
fn one_eye_stands_in_for_the_other() {
    assert_eq!(complete_eye_pair(Some(1), Some(2)), (Some(1), Some(2)));
    assert_eq!(complete_eye_pair(Some(1), None), (Some(1), Some(1)));
    assert_eq!(complete_eye_pair(None, Some(2)), (Some(2), Some(2)));
    assert_eq!(complete_eye_pair::<u8>(None, None), (None, None));
}
