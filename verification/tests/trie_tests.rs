use dispatch_core::stream::{Pulled, Stream};
use dispatch_core::trie::TrieTree;
use dispatch_core::Error;

#[test]
fn push_then_find_returns_the_payload() {
    let mut t: TrieTree<u32> = TrieTree::new(false, b' ');
    let (idx, pre) = t.push(b"abc", 7).unwrap();
    assert!(!pre);
    let mut len: usize = 0;
    let found = t.find(b"abc", &mut len).unwrap();
    assert_eq!(found, idx);
    assert_eq!(len, 3);
    assert_eq!(*t.node_ref(found).data_ref(), Some(7));
}

#[test]
fn push_existing_key_reports_and_keeps_first_payload() {
    let mut t: TrieTree<u32> = TrieTree::new(false, b' ');
    let (idx1, pre1) = t.push(b"abc", 7).unwrap();
    let (idx2, pre2) = t.push(b"abc", 9).unwrap();
    assert!(!pre1);
    assert!(pre2);
    assert_eq!(idx1, idx2);
    // the first registration is kept, not overwritten
    assert_eq!(*t.node_ref(idx2).data_ref(), Some(7));
}

#[test]
fn push_empty_key_is_refused() {
    let mut t: TrieTree<u32> = TrieTree::new(false, b' ');
    assert!(matches!(t.push(b"", 1), Err(Error::EmptyKey)));
}

#[test]
fn find_empty_and_unregistered_keys() {
    let mut t: TrieTree<u32> = TrieTree::new(false, b' ');
    t.push(b"abc", 7).unwrap();
    let mut len: usize = 0;
    assert!(matches!(t.find(b"", &mut len), Err(Error::EmptyKey)));
    assert!(matches!(t.find(b"zzz", &mut len), Err(Error::NoMatch)));
    assert_eq!(len, 1);
    // a proper prefix of a registered key has no terminal edge
    assert!(matches!(t.find(b"ab", &mut len), Err(Error::NoMatch)));
}

#[test]
fn find_stops_at_the_separator() {
    let mut t: TrieTree<u32> = TrieTree::new(false, b' ');
    let (idx, _) = t.push(b"ab", 5).unwrap();
    let mut len: usize = 0;
    let found = t.find(b"ab cd", &mut len).unwrap();
    assert_eq!(found, idx);
    // the separator itself is counted as examined
    assert_eq!(len, 3);
}

#[test]
fn find_from_stream_consumes_key_and_separator() {
    let mut t: TrieTree<u32> = TrieTree::new(false, b' ');
    let (idx, _) = t.push(b"abc", 5).unwrap();
    let mut s = Stream::new();
    s.feed(b"abc rest");
    let mut len: usize = 0;
    let r = t.find_from_stream(&mut s, &mut len).unwrap();
    assert_eq!(r, Pulled::Ready(idx));
    assert_eq!(len, 4);
    assert_eq!(s.count_clone(), 4);
    // the rest of the stream is untouched
    let rest = s.take_n_vec(4).unwrap();
    assert_eq!(rest, b"rest".to_vec());
}

#[test]
fn find_from_stream_leaves_unmatched_first_byte() {
    let mut t: TrieTree<u32> = TrieTree::new(false, b' ');
    t.push(b"abc", 5).unwrap();
    let mut s = Stream::new();
    s.feed(b"zzz");
    let mut len: usize = 0;
    assert!(matches!(t.find_from_stream(&mut s, &mut len), Err(Error::NoMatch)));
    // the consumption point is unchanged: the byte is still peekable
    assert_eq!(s.lookup_next_one(), Ok(Pulled::Ready(b'z')));
    assert_eq!(s.count_clone(), 0);
    assert_eq!(len, 1);
}

#[test]
fn find_from_stream_mid_token_mismatch_stops_at_the_bad_byte() {
    let mut t: TrieTree<u32> = TrieTree::new(false, b' ');
    t.push(b"abc", 5).unwrap();
    let mut s = Stream::new();
    s.feed(b"abq");
    let mut len: usize = 0;
    assert!(matches!(t.find_from_stream(&mut s, &mut len), Err(Error::NoMatch)));
    // matched bytes are consumed, the mismatched one is still peekable
    assert_eq!(s.lookup_next_one(), Ok(Pulled::Ready(b'q')));
    assert_eq!(s.count_clone(), 2);
    assert_eq!(len, 3);
}

#[test]
fn find_from_stream_needs_input_mid_token() {
    let mut t: TrieTree<u32> = TrieTree::new(false, b' ');
    t.push(b"abc", 5).unwrap();
    let mut s = Stream::new();
    s.feed(b"ab");
    let mut len: usize = 0;
    assert_eq!(t.find_from_stream(&mut s, &mut len), Ok(Pulled::NeedInput));
    // a closed stream fails instead
    let mut s2 = Stream::new();
    s2.feed(b"ab");
    s2.close();
    assert!(matches!(t.find_from_stream(&mut s2, &mut len), Err(Error::NoMatch)));
}

#[test]
fn header_trie_folds_case() {
    let mut t: TrieTree<u32> = TrieTree::new(true, b':');
    let (idx, _) = t.push(b"Content-Type", 1).unwrap();
    let mut s = Stream::new();
    s.feed(b"content-type:x");
    let mut len: usize = 0;
    let r = t.find_from_stream(&mut s, &mut len).unwrap();
    // the streamed query in the other case reaches the same terminal node
    assert_eq!(r, Pulled::Ready(idx));
    assert_eq!(len, 13);
    // a shouted static query agrees too
    let mut len2: usize = 0;
    assert_eq!(t.find(b"CONTENT-TYPE", &mut len2), Ok(idx));
}

#[test]
fn url_trie_is_case_sensitive() {
    let mut t: TrieTree<u32> = TrieTree::new(false, b' ');
    t.push(b"abc", 5).unwrap();
    let mut len: usize = 0;
    assert!(matches!(t.find(b"ABC", &mut len), Err(Error::NoMatch)));
}

#[test]
fn incremental_matcher_walks_edges() {
    let mut t: TrieTree<u32> = TrieTree::new(true, b':');
    let (idx, _) = t.push(b"ab", 3).unwrap();
    let mut m = t.matched();
    assert!(m.matched(&t, &b'A'));
    assert!(m.matched(&t, &b'b'));
    // a byte with no edge leaves the matcher in place
    assert!(!m.matched(&t, &b'q'));
    assert_eq!(m.terminal(&t), Some(idx));
    assert_eq!(m.get_clone_unwrap(&t), idx);
    assert_eq!(*t.node_ref(idx).data_ref(), Some(3));
}

#[test]
fn incremental_matcher_without_terminal() {
    let mut t: TrieTree<u32> = TrieTree::new(false, b' ');
    t.push(b"ab", 3).unwrap();
    let mut m = t.matched();
    assert!(m.matched(&t, &b'a'));
    // "a" alone was never registered
    assert_eq!(m.terminal(&t), None);
}

#[test]
fn node_data_can_be_replaced() {
    let mut t: TrieTree<u32> = TrieTree::new(false, b' ');
    let (idx, _) = t.push(b"k", 1).unwrap();
    assert_eq!(t.take_node_data(idx), Some(1));
    assert_eq!(t.take_node_data(idx), None);
    assert_eq!(t.set_node_data(idx, Some(2)), None);
    assert_eq!(*t.node_ref(idx).data_ref(), Some(2));
}

#[test]
fn key_containing_the_separator_is_stored_but_unreachable_past_it() {
    let mut t: TrieTree<u32> = TrieTree::new(false, b' ');
    // the full path is stored byte for byte
    t.push(b"a b", 9).unwrap();
    // but matching stops at the space, where no token ends
    let mut len: usize = 0;
    assert!(matches!(t.find(b"a b", &mut len), Err(Error::NoMatch)));
    assert_eq!(len, 2);
}
