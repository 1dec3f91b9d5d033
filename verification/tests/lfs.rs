use amiss::lfs::is_pointer;

const OID: &str = "sha256:4d7a214614ab2935c943f9e0ff69d22eadbb8f32b1258daaa5e2ca24d17e2393";

fn pointer(lines: &[&str], ending: &str) -> Vec<u8> {
    let mut text = String::new();
    for line in lines {
        text.push_str(line);
        text.push_str(ending);
    }
    text.into_bytes()
}

fn oid_line() -> String {
    format!("oid {OID}")
}

#[test]
fn a_well_formed_pointer_is_recognized_under_either_ending() {
    let oid = oid_line();
    let lines = ["version https://git-lfs.github.com/spec/v1", oid.as_str(), "size 12345"];
    assert!(is_pointer(&pointer(&lines, "\n")));
    assert!(is_pointer(&pointer(&lines, "\r\n")));
    let hawser = ["version https://hawser.github.com/spec/v1", oid.as_str(), "size 0"];
    assert!(is_pointer(&pointer(&hawser, "\n")));
    let extension = [
        "version https://git-lfs.github.com/spec/v1",
        "ext-0-foo sha256:abc",
        oid.as_str(),
        "size 1",
    ];
    assert!(is_pointer(&pointer(&extension, "\n")));
}

#[test]
fn anything_off_the_grammar_is_ordinary_content() {
    let oid = oid_line();
    let good = ["version https://git-lfs.github.com/spec/v1", oid.as_str(), "size 12345"];
    let mut unterminated = pointer(&good, "\n");
    unterminated.pop();
    assert!(!is_pointer(&unterminated), "a missing final ending");
    let mut mixed = pointer(&good[..2], "\r\n");
    mixed.extend_from_slice(b"size 12345\n");
    assert!(!is_pointer(&mixed), "mixed endings");
    let mut bom = vec![0xef, 0xbb, 0xbf];
    bom.extend(pointer(&good, "\n"));
    assert!(!is_pointer(&bom), "a byte-order mark");
    let reordered = ["version https://git-lfs.github.com/spec/v1", "size 12345", oid.as_str()];
    assert!(!is_pointer(&pointer(&reordered, "\n")), "keys out of order");
    let leading_zero = ["version https://git-lfs.github.com/spec/v1", oid.as_str(), "size 012"];
    assert!(!is_pointer(&pointer(&leading_zero, "\n")), "a leading zero");
    let huge = ["version https://git-lfs.github.com/spec/v1", oid.as_str(), "size 9223372036854775808"];
    assert!(!is_pointer(&pointer(&huge, "\n")), "a size past the largest");
    let largest = ["version https://git-lfs.github.com/spec/v1", oid.as_str(), "size 9223372036854775807"];
    assert!(is_pointer(&pointer(&largest, "\n")), "the largest size");
    let upper = OID.to_uppercase().replace("SHA256", "sha256");
    let upper_line = format!("oid {upper}");
    let uppercase = ["version https://git-lfs.github.com/spec/v1", upper_line.as_str(), "size 1"];
    assert!(!is_pointer(&pointer(&uppercase, "\n")), "uppercase hex");
    let no_size = ["version https://git-lfs.github.com/spec/v1", oid.as_str()];
    assert!(!is_pointer(&pointer(&no_size, "\n")), "no size line");
    let double_space = ["version https://git-lfs.github.com/spec/v1", oid.as_str(), "size  1"];
    assert!(!is_pointer(&pointer(&double_space, "\n")), "a value starting with a space");
    let wrong_version = ["version https://example.com/spec/v1", oid.as_str(), "size 1"];
    assert!(!is_pointer(&pointer(&wrong_version, "\n")), "an unknown version");
    assert!(!is_pointer(b""), "nothing");
    let mut long = pointer(&good, "\n");
    long.splice(0..0, std::iter::repeat(b'a').take(1024));
    assert!(!is_pointer(&long), "too long");
    let mut invalid = pointer(&["version https://git-lfs.github.com/spec/v1", "ext-0-x v"], "\n");
    invalid.insert(invalid.len() - 2, 0xff);
    invalid.extend(pointer(&[oid.as_str(), "size 1"], "\n"));
    assert!(!is_pointer(&invalid), "not UTF-8");
}
