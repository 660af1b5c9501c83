use std::path::PathBuf;

use the_third_sloppening::mmap_buffer::MmapBuffer;
use the_third_sloppening::piece_tree::PieceTree;

#[test]
fn insert_and_delete_works() {
    let mut tree = PieceTree::from_original(MmapBuffer::from_bytes(b"abc\ndef".to_vec()));
    tree.insert(3, b"XYZ");
    assert_eq!(tree.to_bytes(), b"abcXYZ\ndef");

    tree.delete(2..6);
    assert_eq!(tree.to_bytes(), b"ab\ndef");
}

#[test]
fn visible_text_reads_window_only() {
    let mut tree =
        PieceTree::from_original(MmapBuffer::from_bytes(b"line1\nline2\nline3".to_vec()));
    tree.insert(6, b"NEW\n");

    assert_eq!(tree.visible_text(6, 10), b"NEW\n");
}

#[test]
fn empty_original_starts_empty() {
    let mut tree = PieceTree::from_original(MmapBuffer::from_bytes(Vec::new()));
    assert!(tree.is_empty());
    assert_eq!(tree.len(), 0);
    assert_eq!(tree.to_bytes(), b"");
    tree.insert(0, b"hello");
    assert_eq!(tree.to_bytes(), b"hello");
    assert_eq!(tree.len(), 5);
}

#[test]
fn inserts_at_both_ends_and_between_pieces() {
    let mut tree = PieceTree::from_original(MmapBuffer::from_bytes(b"mid".to_vec()));
    tree.insert(0, b"<");
    tree.insert(4, b">");
    tree.insert(1, b"[");
    tree.insert(5, b"]");
    assert_eq!(tree.to_bytes(), b"<[mid]>");
    assert_eq!(tree.len(), 7);
    tree.insert(3, b"");
    assert_eq!(tree.to_bytes(), b"<[mid]>");
}

#[test]
fn delete_undoes_insert() {
    let mut tree = PieceTree::from_original(MmapBuffer::from_bytes(b"0123456789".to_vec()));
    tree.insert(4, b"abc");
    tree.delete(4..7);
    assert_eq!(tree.to_bytes(), b"0123456789");
}

#[test]
fn delete_spanning_several_pieces() {
    let mut tree = PieceTree::from_original(MmapBuffer::from_bytes(b"aaaa".to_vec()));
    tree.insert(2, b"bbbb");
    tree.insert(8, b"cc");
    assert_eq!(tree.to_bytes(), b"aabbbbaacc");
    tree.delete(1..9);
    assert_eq!(tree.to_bytes(), b"ac");
    tree.delete(0..0);
    assert_eq!(tree.to_bytes(), b"ac");
    tree.delete(0..2);
    assert!(tree.is_empty());
}

#[test]
fn windows_read_across_pieces() {
    let mut tree = PieceTree::from_original(MmapBuffer::from_bytes(b"hello world".to_vec()));
    tree.insert(5, b",");
    assert_eq!(tree.visible_text(0, 12), b"hello, world");
    assert_eq!(tree.visible_text(3, 8), b"lo, w");
    assert_eq!(tree.visible_text(4, 4), b"");
    assert_eq!(tree.visible_text(0, 5), b"hello");
}

#[test]
fn mmap_buffer_reports_its_bytes_and_path() {
    let owned = MmapBuffer::from_bytes(b"xyz".to_vec());
    assert_eq!(owned.as_slice(), b"xyz");
    assert_eq!(owned.len(), 3);
    assert!(!owned.is_empty());
    assert!(owned.path().is_none());

    let mapped = MmapBuffer::from_mapped(PathBuf::from("notes.txt"), b"".to_vec());
    assert!(mapped.is_empty());
    assert_eq!(mapped.path(), Some(PathBuf::from("notes.txt").as_path()));
}

#[test]
fn adjacent_windows_read_as_one() {
    let mut tree = PieceTree::from_original(MmapBuffer::from_bytes(b"abcdef".to_vec()));
    tree.insert(3, b"123");
    let mut joined = tree.visible_text(1, 4);
    joined.extend_from_slice(&tree.visible_text(4, 8));
    assert_eq!(joined, tree.visible_text(1, 8));
    assert_eq!(tree.visible_text(0, tree.len()), tree.to_bytes());
}
