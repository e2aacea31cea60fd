//! Tests for the tile catalog: signature decoding, rotation and the
//! adjacency analysis.

use wave_collapse::WfcError;
use wave_collapse::tile::{Connections, Edges, Tile, analyze_catalog, build_catalog};

fn tile(sig: Vec<u8>) -> Tile {
    Tile::from(sig).expect("signature within the edge alphabet")
}

#[test]
fn from_vec_decodes_signature() {
    let c = Connections::from_vec(vec![0, 1, 0, 1]).unwrap();
    assert_eq!(
        c,
        vec![Connections::BLANK, Connections::PATH, Connections::BLANK, Connections::PATH]
    );
}

#[test]
fn from_vec_rejects_invalid_byte() {
    let r = Connections::from_vec(vec![0, 2, 0, 0]);
    assert_eq!(r, Err(WfcError::InvalidConnectionValue));
}

#[test]
fn tile_from_rejects_invalid_byte() {
    let r = Tile::from(vec![1, 1, 7, 0]);
    assert!(matches!(r, Err(WfcError::InvalidConnectionValue)));
}

#[test]
fn edges_index_mapping() {
    let mut e = Edges::new();
    assert!(e.get_from_index(4).is_none());
    assert!(e.get_mut_from_index(9).is_none());
    e.get_mut_from_index(0).unwrap().push(10);
    e.get_mut_from_index(1).unwrap().push(11);
    e.get_mut_from_index(2).unwrap().push(12);
    e.get_mut_from_index(3).unwrap().push(13);
    assert_eq!(e.up, vec![10]);
    assert_eq!(e.left, vec![11]);
    assert_eq!(e.down, vec![12]);
    assert_eq!(e.right, vec![13]);
    assert_eq!(e.get_from_index(0).unwrap(), &vec![10]);
    assert_eq!(e.get_from_index(1).unwrap(), &vec![11]);
    assert_eq!(e.get_from_index(2).unwrap(), &vec![12]);
    assert_eq!(e.get_from_index(3).unwrap(), &vec![13]);
}

#[test]
fn rotate_four_times_returns_signature() {
    let base = tile(vec![1, 0, 1, 0]);
    let once = base.get_rotated90();
    let twice = once.get_rotated90();
    let thrice = twice.get_rotated90();
    let full = thrice.get_rotated90();
    assert_eq!(full.connections, base.connections);

    let mut spun = tile(vec![1, 1, 0, 1]);
    let original = spun.connections.clone();
    spun.rotate90();
    assert_ne!(spun.connections, original);
    spun.rotate90();
    spun.rotate90();
    spun.rotate90();
    assert_eq!(spun.connections, original);
}

#[test]
fn rotations_shift_signature_left() {
    let base = tile(vec![1, 0, 0, 0]);
    let r90 = base.get_rotated90();
    let r180 = base.get_rotated180();
    let r270 = base.get_rotated270();
    let c = Connections::from_vec(vec![0, 0, 0, 1]).unwrap();
    assert_eq!(r90.connections, c);
    let c = Connections::from_vec(vec![0, 0, 1, 0]).unwrap();
    assert_eq!(r180.connections, c);
    let c = Connections::from_vec(vec![0, 1, 0, 0]).unwrap();
    assert_eq!(r270.connections, c);
}

#[test]
fn build_catalog_derives_all_rotations() {
    let catalog = build_catalog(vec![tile(vec![1, 0, 0, 0]), tile(vec![1, 1, 0, 0])]);
    assert_eq!(catalog.len(), 8);
    let expect: Vec<Vec<u8>> = vec![
        vec![1, 0, 0, 0],
        vec![0, 0, 0, 1],
        vec![0, 0, 1, 0],
        vec![0, 1, 0, 0],
        vec![1, 1, 0, 0],
        vec![1, 0, 0, 1],
        vec![0, 0, 1, 1],
        vec![0, 1, 1, 0],
    ];
    for (entry, sig) in catalog.iter().zip(expect) {
        assert_eq!(entry.connections, Connections::from_vec(sig).unwrap());
        assert!(entry.edges.up.is_empty());
        assert!(entry.edges.right.is_empty());
        assert!(entry.edges.down.is_empty());
        assert!(entry.edges.left.is_empty());
    }
}

#[test]
fn adjacency_matches_rule_pairwise() {
    // Three hand-picked signatures; sides run up, left, down, right and the
    // opposite of side s is side (s + 2) % 4.
    let catalog = vec![
        tile(vec![0, 0, 0, 0]),
        tile(vec![1, 1, 0, 1]),
        tile(vec![0, 1, 1, 0]),
    ];
    let analyzed = analyze_catalog(&catalog);
    assert_eq!(analyzed.len(), 3);
    for (t, entry) in analyzed.iter().enumerate() {
        assert_eq!(entry.connections, catalog[t].connections);
        for side in 0..4usize {
            let list = entry.edges.get_from_index(side).unwrap();
            for (u, other) in catalog.iter().enumerate() {
                let matches_rule =
                    other.connections[(side + 2) % 4] == catalog[t].connections[side];
                assert_eq!(list.contains(&u), matches_rule, "tile {t} side {side} vs {u}");
            }
        }
    }
}

#[test]
fn analyze_method_fills_edges() {
    let catalog = vec![tile(vec![0, 0, 0, 0]), tile(vec![1, 1, 1, 1])];
    let mut subject = tile(vec![0, 0, 0, 0]);
    subject.analyze(&catalog);
    // only the all-blank tile matches an all-blank tile on any side
    assert_eq!(subject.edges.up, vec![0]);
    assert_eq!(subject.edges.left, vec![0]);
    assert_eq!(subject.edges.down, vec![0]);
    assert_eq!(subject.edges.right, vec![0]);
}
