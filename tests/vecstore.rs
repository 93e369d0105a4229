use vecstore::collection::Collection;
use vecstore::database::Database;
use vecstore::ranking::rank_top;
use vecstore::score::{rank_key, stays_before};

fn bits(v: &[f32]) -> Vec<u32> {
    v.iter().map(|x| x.to_bits()).collect()
}

fn cosine(a: &[u32], b: &[u32]) -> f32 {
    let a: Vec<f32> = a.iter().map(|x| f32::from_bits(*x)).collect();
    let b: Vec<f32> = b.iter().map(|x| f32::from_bits(*x)).collect();
    let dot: f32 = a.iter().zip(&b).map(|(x, y)| x * y).sum();
    let na: f32 = a.iter().map(|x| x * x).sum::<f32>().sqrt();
    let nb: f32 = b.iter().map(|x| x * x).sum::<f32>().sqrt();
    if na > 0.0 && nb > 0.0 {
        dot / (na * nb)
    } else {
        0.0
    }
}

fn scores_for(c: &Collection, query: &[f32]) -> Vec<u32> {
    let q = bits(query);
    c.documents().iter().map(|d| cosine(&d.embedding, &q).to_bits()).collect()
}

fn ids(r: &[(String, u32)]) -> Vec<&str> {
    r.iter().map(|p| p.0.as_str()).collect()
}

#[test]
fn rank_key_exact_values() {
    assert_eq!(rank_key(1.0f32.to_bits()), 0xbf80_0000);
    assert_eq!(rank_key(0.0f32.to_bits()), 0x8000_0000);
    assert_eq!(rank_key((-0.0f32).to_bits()), 0x8000_0000);
    assert_eq!(rank_key((-1.0f32).to_bits()), 0x407f_ffff);
    assert_eq!(rank_key(f32::NAN.to_bits()), 0);
    assert_eq!(rank_key((-f32::NAN).to_bits()), 0);
}

#[test]
fn rank_key_follows_float_order() {
    let xs = [f32::NEG_INFINITY, -1.0, -0.5, -1e-30, 0.0, 1e-30, 0.25, 0.5, 1.0, f32::INFINITY];
    for w in xs.windows(2) {
        assert!(rank_key(w[0].to_bits()) < rank_key(w[1].to_bits()));
    }
    assert!(rank_key(f32::NAN.to_bits()) < rank_key(f32::NEG_INFINITY.to_bits()));
}

#[test]
fn new_collection_is_empty() {
    let c = Collection::new("test");
    assert_eq!(c.name(), "test");
    assert!(c.documents().is_empty());
}

#[test]
fn add_document_twice_keeps_latest() {
    let mut c = Collection::new("c");
    c.add_document("a", bits(&[1.0, 0.0]));
    c.add_document("b", bits(&[0.0, 1.0]));
    c.add_document("a", bits(&[0.5, 0.5]));
    assert_eq!(c.documents().len(), 2);
    assert_eq!(c.documents()[0].id, "a");
    assert_eq!(c.documents()[0].embedding, bits(&[0.5, 0.5]));
    assert_eq!(c.documents()[1].id, "b");
}

#[test]
fn remove_document_present_and_absent() {
    let mut c = Collection::new("c");
    c.add_document("a", bits(&[1.0]));
    c.add_document("b", bits(&[2.0]));
    c.add_document("c", bits(&[3.0]));
    c.remove_document("zzz");
    assert_eq!(c.documents().len(), 3);
    c.remove_document("b");
    let left: Vec<&str> = c.documents().iter().map(|d| d.id.as_str()).collect();
    assert_eq!(left, vec!["a", "c"]);
}

#[test]
fn removed_document_never_returned() {
    let mut c = Collection::new("c");
    c.add_document("x", bits(&[1.0, 0.0]));
    c.add_document("y", bits(&[0.9, 0.1]));
    c.add_document("z", bits(&[0.0, 1.0]));
    c.remove_document("x");
    let s = scores_for(&c, &[1.0, 0.0]);
    let r = c.get_similar_documents(&s, 10);
    assert_eq!(ids(&r), vec!["y", "z"]);
}

#[test]
fn similar_documents_sorted_descending() {
    let mut c = Collection::new("c");
    c.add_document("a", vec![]);
    c.add_document("b", vec![]);
    c.add_document("c", vec![]);
    c.add_document("d", vec![]);
    let s = bits(&[0.1, 0.9, -0.3, 0.5]);
    let r = c.get_similar_documents(&s, 4);
    assert_eq!(ids(&r), vec!["b", "d", "a", "c"]);
    for w in r.windows(2) {
        assert!(f32::from_bits(w[0].1) >= f32::from_bits(w[1].1));
    }
    assert_eq!(f32::from_bits(r[0].1), 0.9);
}

#[test]
fn similar_documents_count_is_min() {
    let mut c = Collection::new("c");
    c.add_document("a", vec![]);
    c.add_document("b", vec![]);
    c.add_document("c", vec![]);
    let s = bits(&[0.3, 0.2, 0.1]);
    assert_eq!(c.get_similar_documents(&s, 2).len(), 2);
    assert_eq!(c.get_similar_documents(&s, 3).len(), 3);
    assert_eq!(c.get_similar_documents(&s, 100).len(), 3);
    let empty = Collection::new("e");
    assert!(empty.get_similar_documents(&vec![], 5).is_empty());
}

#[test]
fn similar_documents_top_zero_is_empty() {
    let mut c = Collection::new("c");
    c.add_document("a", vec![]);
    let s = bits(&[0.5]);
    assert!(c.get_similar_documents(&s, 0).is_empty());
}

#[test]
fn nan_compares_equal_and_ties_keep_storage_order() {
    let mut c = Collection::new("c");
    c.add_document("n", vec![]);
    c.add_document("p", vec![]);
    c.add_document("q", vec![]);
    c.add_document("m", vec![]);
    let s = vec![f32::NAN.to_bits(), 0.5f32.to_bits(), 0.5f32.to_bits(), (-0.0f32).to_bits()];
    let r = c.get_similar_documents(&s, 4);
    assert_eq!(ids(&r), vec!["n", "p", "q", "m"]);
}

#[test]
fn nan_first_stays_first() {
    let mut c = Collection::new("c");
    c.add_document("nan", vec![]);
    c.add_document("half", vec![]);
    let s = vec![f32::NAN.to_bits(), 0.5f32.to_bits()];
    let r = c.get_similar_documents(&s, 2);
    assert_eq!(ids(&r), vec!["nan", "half"]);
    assert!(f32::from_bits(r[0].1).is_nan());
}

#[test]
fn numbers_around_nan_stay_ranked() {
    let mut c = Collection::new("c");
    c.add_document("a", vec![]);
    c.add_document("b", vec![]);
    c.add_document("c", vec![]);
    let s = vec![0.1f32.to_bits(), f32::NAN.to_bits(), 0.5f32.to_bits()];
    let r = c.get_similar_documents(&s, 3);
    assert_eq!(ids(&r), vec!["c", "a", "b"]);
    assert_eq!(c.get_similar_documents(&s, 2).len(), 2);
}

#[test]
fn stays_before_policy() {
    assert!(stays_before(f32::NAN.to_bits(), 1.0f32.to_bits()));
    assert!(stays_before(1.0f32.to_bits(), f32::NAN.to_bits()));
    assert!(stays_before(0.5f32.to_bits(), 0.5f32.to_bits()));
    assert!(stays_before(0.0f32.to_bits(), (-0.0f32).to_bits()));
    assert!(!stays_before(0.25f32.to_bits(), 0.5f32.to_bits()));
}

#[test]
fn rank_top_cuts_ranked_entries() {
    let scored = vec![
        ("a".to_string(), 0.2f32.to_bits()),
        ("b".to_string(), 0.7f32.to_bits()),
        ("c".to_string(), (-0.4f32).to_bits()),
        ("d".to_string(), 0.7f32.to_bits()),
    ];
    let r = rank_top(&scored, 3);
    assert_eq!(ids(&r), vec!["b", "d", "a"]);
    assert_eq!(r[2].1, 0.2f32.to_bits());
}

#[test]
fn end_to_end_top_two() {
    let db = {
        let mut db = Database::new();
        db.create_collection("test");
        db
    };
    let mut c = db.get_collection("test").unwrap();
    c.add_document("doc1", bits(&[0.1, 0.2, 0.3, 0.4]));
    c.add_document("doc2", bits(&[0.2, 0.3, 0.4, 0.5]));
    c.add_document("doc3", bits(&[0.9, 0.8, 0.7, 0.6]));
    let s = scores_for(&c, &[0.2, 0.25, 0.3, 0.35]);
    let r = c.get_similar_documents(&s, 2);
    assert_eq!(ids(&r), vec!["doc2", "doc1"]);
    assert!(f32::from_bits(r[0].1) > f32::from_bits(r[1].1));
    let all = c.get_similar_documents(&s, 3);
    assert_eq!(all[2].0, "doc3");
}

#[test]
fn get_collection_unregistered_is_none() {
    let mut db = Database::new();
    assert!(db.get_collection("nope").is_none());
    db.create_collection("yes");
    assert!(db.get_collection("nope").is_none());
    assert_eq!(db.get_collection("yes").unwrap().name(), "yes");
}

#[test]
fn get_collection_is_a_snapshot() {
    let mut db = Database::new();
    db.create_collection("c");
    let mut snap = db.get_collection("c").unwrap();
    snap.add_document("a", bits(&[1.0]));
    assert_eq!(snap.documents().len(), 1);
    assert!(db.get_collection("c").unwrap().documents().is_empty());
}

#[test]
fn create_collection_overwrites_and_delete_removes() {
    let mut db = Database::new();
    db.create_collection("c");
    db.create_collection("d");
    db.delete_collection("d");
    assert!(db.get_collection("d").is_none());
    db.delete_collection("missing");
    assert!(db.get_collection("c").is_some());
    db.create_collection("c");
    let c = db.get_collection("c").unwrap();
    assert!(c.documents().is_empty());
}
