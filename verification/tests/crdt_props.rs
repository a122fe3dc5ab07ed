use lseq::{FractionalIndex, LSeq, NaiveFractionalIndex, NonInterleavingIndex, PeerId, Segment};

const A: PeerId = 1;
const B: PeerId = 2;
const C: PeerId = 3;

fn chars(s: &str) -> Vec<char> {
    s.chars().collect()
}

#[test]
fn empty_container_renders_nothing() {
    let a: LSeq<NaiveFractionalIndex, char> = LSeq::new(A);
    assert_eq!(a.render_string(), "");
    let b: LSeq<NonInterleavingIndex, char> = LSeq::new(A);
    assert_eq!(b.render_string(), "");
}

#[test]
fn remove_tombstones_and_returns_value() {
    let mut a: LSeq<NonInterleavingIndex, char> = LSeq::new(A);
    a.insert_range(0, chars("abc"));
    assert_eq!(a.remove(1), Some('b'));
    assert_eq!(a.render_string(), "ac");
    // the slot stays: removing the same raw position again yields nothing
    assert_eq!(a.remove(1), None);
    assert_eq!(a.render_string(), "ac");
    // out of range removes return nothing and change nothing
    assert_eq!(a.remove(10), None);
    assert_eq!(a.render_string(), "ac");
}

#[test]
fn merge_is_idempotent() {
    let mut a: LSeq<NaiveFractionalIndex, char> = LSeq::new(A);
    a.insert_range(0, chars("xyz"));
    a.remove(1);
    let before = a.render_string();
    a.merge(a.clone());
    assert_eq!(a.render_string(), before);
}

#[test]
fn merge_order_does_not_matter() {
    let mut a: LSeq<NonInterleavingIndex, char> = LSeq::new(A);
    a.insert_range(0, chars("mm"));
    let mut b: LSeq<NonInterleavingIndex, char> = LSeq::new(B);
    b.merge(a.clone());
    let mut c: LSeq<NonInterleavingIndex, char> = LSeq::new(C);
    c.merge(a.clone());
    b.insert(1, 'q');
    c.insert(1, 'r');

    let mut one = a.clone();
    one.merge(b.clone());
    one.merge(c.clone());
    let mut two = a.clone();
    two.merge(c.clone());
    two.merge(b.clone());
    assert_eq!(one.render_string(), two.render_string());
}

#[test]
fn delete_wins_over_concurrent_value() {
    let mut a: LSeq<NonInterleavingIndex, char> = LSeq::new(A);
    a.insert_range(0, chars("abc"));
    let mut b: LSeq<NonInterleavingIndex, char> = LSeq::new(B);
    b.merge(a.clone());
    // b tombstones 'b'; a still carries it live
    b.remove(1);
    a.merge(b.clone());
    assert_eq!(a.render_string(), "ac");
    // a later merge of a state that still holds the key live cannot
    // resurrect it
    let mut c: LSeq<NonInterleavingIndex, char> = LSeq::new(C);
    c.insert_range(0, chars("abc"));
    // c's keys differ from a's, so build the stale state from a's history
    let mut stale = a.clone();
    stale.merge(b.clone());
    a.merge(stale);
    assert_eq!(a.render_string(), "ac");
    drop(c);
}

#[test]
fn convergence_after_bidirectional_merge() {
    let mut a: LSeq<NaiveFractionalIndex, char> = LSeq::new(A);
    let mut b: LSeq<NaiveFractionalIndex, char> = LSeq::new(B);
    a.insert_range(0, chars("kit"));
    b.insert_range(0, chars("cat"));
    a.remove(2);
    a.merge(b.clone());
    b.merge(a.clone());
    assert_eq!(a.render_string(), b.render_string());
}

#[test]
fn iter_yields_live_values_in_order() {
    let mut a: LSeq<NonInterleavingIndex, char> = LSeq::new(A);
    a.insert_range(0, chars("abcd"));
    a.remove(2);
    assert_eq!(a.iter(), vec!['a', 'b', 'd']);
}

#[test]
fn out_of_range_insert_degrades_to_unbounded() {
    let mut a: LSeq<NonInterleavingIndex, char> = LSeq::new(A);
    a.insert(5, 'x');
    assert_eq!(a.render_string(), "x");
    let mut b: LSeq<NaiveFractionalIndex, char> = LSeq::new(A);
    b.insert(5, 'x');
    assert_eq!(b.render_string(), "x");
}

#[test]
fn segment_new_carries_its_fields() {
    let s = Segment::new(7, 9);
    assert_eq!(s.peer, 7);
    assert_eq!(s.seq_no, 9);
    assert!(s == Segment::new(7, 9));
}

#[test]
fn naive_keys_are_strictly_between_neighbours() {
    // two keys from one replica, then one minted in the gap by another
    let lo = NaiveFractionalIndex::new(A, None, None);
    let hi = NaiveFractionalIndex::new(A, Some(&lo), None);
    let mid = NaiveFractionalIndex::new(B, Some(&lo), Some(&hi));
    assert!(lo.key_lt(&mid));
    assert!(mid.key_lt(&hi));
    assert!(!mid.key_eq(&lo));
    assert!(!mid.key_eq(&hi));
}

#[test]
fn non_interleaving_keys_are_strictly_between_neighbours() {
    let lo = NonInterleavingIndex::new(A, None, None);
    let hi = NonInterleavingIndex::new(A, Some(&lo), None);
    let mid = NonInterleavingIndex::new(B, Some(&lo), Some(&hi));
    assert!(lo.key_lt(&mid));
    assert!(mid.key_lt(&hi));
    assert!(!mid.key_eq(&lo));
    assert!(!mid.key_eq(&hi));
}

#[test]
fn key_render_formats() {
    let k = NaiveFractionalIndex::new(1, None, None);
    assert_eq!(k.render(), "01@1");
    let k2 = NaiveFractionalIndex::new(1, Some(&k), None);
    assert_eq!(k2.render(), "02@1");
    let mid = NaiveFractionalIndex::new(2, Some(&k), Some(&k2));
    assert_eq!(mid.render(), "01.02@2");

    let s = NonInterleavingIndex::new(1, None, None);
    assert_eq!(s.render(), "1:1");
    let s2 = NonInterleavingIndex::new(1, Some(&s), None);
    assert_eq!(s2.render(), "1:2");
    let smid = NonInterleavingIndex::new(2, Some(&s), Some(&s2));
    assert_eq!(smid.render(), "1:1.2:1");

    let wide = NonInterleavingIndex::new(310, None, None);
    assert_eq!(wide.render(), "310:1");
}

#[test]
fn out_of_range_insert_can_rebind_an_unbounded_key() {
    // past-the-end inserts see no neighbours at all, so two of them by
    // one replica mint the same key and the second overwrites the first
    let mut a: LSeq<NonInterleavingIndex, char> = LSeq::new(A);
    a.insert(0, 'a');
    a.insert(5, 'y');
    assert_eq!(a.render_string(), "y");
}
