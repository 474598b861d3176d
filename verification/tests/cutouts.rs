use mirzam::skill::fnv1a;

/// The same request is the same file, on any machine; a different page
/// or a different quote is a different one.
#[test]
fn a_file_name_follows_from_what_was_asked() {
    assert_eq!(fnv1a("a"), 0xaf63_dc4c_8601_ec8c);
    assert_ne!(fnv1a("a\nb"), fnv1a("a\nc"));
}
