use whim::fnv1_hash::{hash, Hashable, FNV_OFFSET_BASIS};
use whim::md_content::MdContent;

#[test]
fn check_hash_differences() {
    let a: [u8; 6] = [32, 45, 234, 58, 72, 37];
    let b: [u8; 6] = [23, 43, 127, 32, 32, 123];

    assert_ne!(a.hash(), b.hash());
    assert_eq!(a.hash(), a.clone().hash());
}

#[test]
fn hash_known_values() {
    assert_eq!(hash(&[]), FNV_OFFSET_BASIS);
    assert_eq!(hash(b"a"), 0xaf63bd4c8601b7be);
    assert_eq!(hash(b"foobar"), 0x340d8765a4dda9c2);
    assert_eq!(hash(&[32, 45, 234, 58, 72, 37]), 946443028383328361);
}

#[test]
fn content_hash_reads_utf8_bytes() {
    assert_eq!(MdContent::new("# Héllo").hash(), 764058745703987595);
    assert_eq!(MdContent::new("foobar").hash(), hash(b"foobar"));
}
