use code_upload::upload::CodeForUpload;
use code_upload::upload::CodeUploader;
use code_upload::upload::DecodeError;

fn three_instruction_uploader() -> CodeUploader {
    let mut u = CodeUploader::_new(3);
    u._serialize_one(&vec![0x01]);
    u._serialize_one(&vec![0x02, 0x03]);
    u._serialize_one(&vec![0x04]);
    u
}

#[test]
fn scenario_three_instructions() {
    let u = three_instruction_uploader();
    assert_eq!(u.num_so_far, 3);
    assert_eq!(u.num_total, 3);
    assert_eq!(u.instructions, vec![vec![0x01], vec![0x02, 0x03], vec![0x04]]);
    assert_eq!(u._to_flat_vec(), vec![0x01, 0x02, 0x03, 0x04]);
    assert_eq!(u._to_json(), "{\"instructions\":[\"01\",\"0203\",\"04\"]}");
}

#[test]
fn round_trip_identity() {
    let u = three_instruction_uploader();
    let text = u._to_json();
    let reconstituted = CodeUploader::_from_json(&text).unwrap();
    assert_eq!(reconstituted, u);
}

#[test]
fn round_trip_empty() {
    let u = CodeUploader::_new(0);
    let text = u._to_json();
    assert_eq!(text, "{\"instructions\":[]}");
    let reconstituted = CodeUploader::_from_json(&text).unwrap();
    assert_eq!(reconstituted, u);
}

#[test]
fn batch_count_matches_instructions() {
    let mut u = CodeUploader::_new(4);
    for k in 0..4u8 {
        u._serialize_one(&vec![k + 1]);
    }
    assert_eq!(u.num_so_far, 4);
    assert_eq!(u.instructions.len(), 4);
}

#[test]
fn empty_emission_closes_no_batch() {
    let mut u = CodeUploader::_new(2);
    u._serialize_one(&vec![]);
    assert_eq!(u.num_so_far, 1);
    assert_eq!(u.instructions.len(), 0);
    u._serialize_one(&vec![0xff]);
    assert_eq!(u.num_so_far, 2);
    assert_eq!(u.instructions, vec![vec![0xff]]);
}

#[test]
fn translate_pc_formula() {
    let u = CodeUploader::_new(5);
    assert_eq!(u._translate_pc(0), 5);
    assert_eq!(u._translate_pc(5), 0);
    assert_eq!(u._translate_pc(2), 3);
}

#[test]
fn reverse_load_order() {
    let code = vec![vec![0x10], vec![0x20], vec![0x30]];
    let u = CodeUploader::_new_from_code(&code);
    assert_eq!(u.num_total, 3);
    assert_eq!(u.num_so_far, 3);
    assert_eq!(u.instructions, vec![vec![0x30], vec![0x20], vec![0x10]]);
}

#[test]
fn push_bytes_accumulate_into_one_batch() {
    let mut u = CodeUploader::_new(1);
    u.push_byte(0xde);
    u.push_bytes(&[0xad, 0xbe]);
    u._serialize_one(&vec![0xef]);
    assert_eq!(u.instructions, vec![vec![0xde, 0xad, 0xbe, 0xef]]);
}

#[test]
fn finish_batch_on_empty_buffer_is_noop() {
    let mut u = CodeUploader::_new(0);
    u._finish_batch();
    assert_eq!(u.instructions.len(), 0);
    assert_eq!(u.num_so_far, 0);
}

#[test]
fn finalize_is_a_nondestructive_snapshot() {
    let mut u = three_instruction_uploader();
    let batches = u._finalize();
    assert_eq!(batches, vec![vec![0x01], vec![0x02, 0x03], vec![0x04]]);
    assert_eq!(u._to_flat_vec(), vec![0x01, 0x02, 0x03, 0x04]);
}

#[test]
fn display_string_lines() {
    let u = three_instruction_uploader();
    assert_eq!(u._display_string(), "01 \n02 03 \n04 \n");
    let empty = CodeUploader::_new(0);
    assert_eq!(empty._display_string(), "");
}

#[test]
fn code_for_upload_hex_strings() {
    let c = CodeForUpload::_new(vec![vec![0x00, 0xff], vec![0xab]]);
    assert_eq!(c.instructions, vec!["00ff", "ab"]);
    assert_eq!(c._to_json(), "{\"instructions\":[\"00ff\",\"ab\"]}");
}

#[test]
fn code_for_upload_parse() {
    let c = CodeForUpload::_from_json("{\"instructions\":[\"00ff\",\"ab\"]}").unwrap();
    assert_eq!(c.instructions, vec!["00ff", "ab"]);
}

#[test]
fn uploader_to_code_for_upload() {
    let u = three_instruction_uploader();
    let c = u._to_code_for_upload();
    assert_eq!(c.instructions, vec!["01", "0203", "04"]);
}

#[test]
fn from_json_sets_counters() {
    let u = CodeUploader::_from_json("{\"instructions\":[\"01\",\"0203\"]}").unwrap();
    assert_eq!(u.num_so_far, 2);
    assert_eq!(u.num_total, 2);
    assert_eq!(u._translate_pc(2), 0);
}

#[test]
fn from_json_accepts_uppercase_hex() {
    let u = CodeUploader::_from_json("{\"instructions\":[\"AB\"]}").unwrap();
    assert_eq!(u.instructions, vec![vec![0xab]]);
}

#[test]
fn from_json_rejects_malformed_payload() {
    assert_eq!(
        CodeUploader::_from_json("garbage"),
        Err(DecodeError::MalformedPayload)
    );
    assert_eq!(
        CodeUploader::_from_json(""),
        Err(DecodeError::MalformedPayload)
    );
    assert_eq!(
        CodeUploader::_from_json("{\"instructions\":[\"01\""),
        Err(DecodeError::MalformedPayload)
    );
    assert_eq!(
        CodeUploader::_from_json("{\"instructions\":[01]}"),
        Err(DecodeError::MalformedPayload)
    );
    assert_eq!(
        CodeUploader::_from_json("{ \"instructions\": [\"01\"] }"),
        Err(DecodeError::MalformedPayload)
    );
}

#[test]
fn from_json_rejects_bad_hex() {
    assert_eq!(
        CodeUploader::_from_json("{\"instructions\":[\"0\"]}"),
        Err(DecodeError::InvalidHex)
    );
    assert_eq!(
        CodeUploader::_from_json("{\"instructions\":[\"zz\"]}"),
        Err(DecodeError::InvalidHex)
    );
    assert_eq!(
        CodeUploader::_from_json("{\"instructions\":[\"01\",\"2g\"]}"),
        Err(DecodeError::InvalidHex)
    );
}

#[test]
fn payload_is_plain_json() {
    let u = three_instruction_uploader();
    let v: serde_json::Value = serde_json::from_str(&u._to_json()).unwrap();
    assert_eq!(v["instructions"][0].as_str().unwrap(), "01");
    assert_eq!(v["instructions"][1].as_str().unwrap(), "0203");
    assert_eq!(v["instructions"][2].as_str().unwrap(), "04");
}
