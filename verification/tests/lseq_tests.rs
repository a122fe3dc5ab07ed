use lseq::{FractionalIndex, LSeq, NaiveFractionalIndex, NonInterleavingIndex, PeerId};

const A: PeerId = 1;
const B: PeerId = 2;

fn chars(s: &str) -> Vec<char> {
    s.chars().collect()
}

fn same_peer_sequential_insert<F: FractionalIndex>() {
    let mut lseq: LSeq<F, char> = LSeq::new(A);
    lseq.insert_range(0, chars("hello "));
    lseq.insert_range(6, chars("world"));
    assert_eq!(lseq.render_string(), "hello world");
}

fn same_peer_mid_insert<F: FractionalIndex>() {
    let mut lseq: LSeq<F, char> = LSeq::new(A);
    lseq.insert_range(0, chars("ace"));
    lseq.insert(1, 'b');
    lseq.insert(3, 'd');
    assert_eq!(lseq.render_string(), "abcde");
}

fn multi_peer_same_position_insert<F: FractionalIndex>(expected: &str) {
    let mut a: LSeq<F, char> = LSeq::new(A);
    let mut b: LSeq<F, char> = LSeq::new(B);
    a.insert_range(0, chars("ae"));

    // sync
    b.merge(a.clone());

    a.insert_range(1, chars("bcd"));
    b.insert_range(1, chars("FGH"));

    // sync
    a.merge(b.clone());
    b.merge(a.clone());

    assert_eq!(a.render_string(), expected);
    assert_eq!(b.render_string(), expected);
}

fn multi_peer_mixed_index_depth<F: FractionalIndex>() {
    let mut b: LSeq<F, char> = LSeq::new(B);
    let mut a: LSeq<F, char> = LSeq::new(A);
    b.insert_range(0, chars("ae"));
    b.insert(1, 'd');

    // sync
    a.merge(b.clone());

    b.insert(1, 'C');
    a.insert(1, 'b');

    // sync
    a.merge(b.clone());
    b.merge(a.clone());

    assert_eq!(a.render_string(), "abCde");
    assert_eq!(b.render_string(), "abCde");
}

#[test]
fn naive_same_peer_sequential_insert() {
    same_peer_sequential_insert::<NaiveFractionalIndex>();
}

#[test]
fn naive_same_peer_mid_insert() {
    same_peer_mid_insert::<NaiveFractionalIndex>();
}

#[test]
fn naive_multi_peer_same_position_insert() {
    multi_peer_same_position_insert::<NaiveFractionalIndex>("abFcGdHe");
}

#[test]
fn naive_multi_peer_mixed_index_depth() {
    multi_peer_mixed_index_depth::<NaiveFractionalIndex>();
}

#[test]
fn non_interleaving_same_peer_sequential_insert() {
    same_peer_sequential_insert::<NonInterleavingIndex>();
}

#[test]
fn non_interleaving_same_peer_mid_insert() {
    same_peer_mid_insert::<NonInterleavingIndex>();
}

#[test]
fn non_interleaving_multi_peer_same_position_insert() {
    multi_peer_same_position_insert::<NonInterleavingIndex>("abcdFGHe");
}

#[test]
fn non_interleaving_multi_peer_mixed_index_depth() {
    multi_peer_mixed_index_depth::<NonInterleavingIndex>();
}
