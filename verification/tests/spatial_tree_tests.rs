use texture_atlas::spatial_tree::{InsertError, Region, Size, SpatialNode, SpatialTree};

/// Collect the indices of all nodes in traversal (pre-order) order.
fn all_nodes(tree: &SpatialTree<u32>) -> Vec<usize> {
    let mut out = Vec::new();
    let mut it = tree.iter_nodes();
    while let Some(i) = it.next(tree) {
        out.push(i);
    }
    out
}

/// Collect `(top, left, width, height)` of every occupied node's footprint,
/// in traversal order.
fn occupied_footprints(tree: &SpatialTree<u32>) -> Vec<(u32, u32, u32, u32)> {
    let mut out = Vec::new();
    let mut it = tree.iter_mut();
    while let Some(i) = it.next(tree) {
        let n = tree.node(i);
        out.push((n.region.top, n.region.left, n.value_size.0, n.value_size.1));
    }
    out
}

fn rects_overlap(a: (u32, u32, u32, u32), b: (u32, u32, u32, u32)) -> bool {
    let (atop, aleft, aw, ah) = a;
    let (btop, bleft, bw, bh) = b;
    if aw == 0 || ah == 0 || bw == 0 || bh == 0 {
        return false;
    }
    !(aleft + aw <= bleft || bleft + bw <= aleft || atop + ah <= btop || btop + bh <= atop)
}

#[test]
fn region_primitives() {
    let r = Region::new(3, 5, 10, 20);
    assert_eq!(r.top, 3);
    assert_eq!(r.left, 5);
    assert_eq!(r.right(), 15);
    assert_eq!(r.bottom(), 23);
    assert_eq!(r.area(), 200);
    assert_eq!(r.max_size(), 20);
    let s = Size { width: 7, height: 7 };
    assert_eq!(s.width, s.height);
}

#[test]
fn empty_node() {
    let n: SpatialNode<u32> = SpatialNode::empty(Region::new(0, 0, 4, 4));
    assert!(n.value.is_none());
    assert!(n.right.is_none());
    assert!(n.bottom.is_none());
    assert_eq!(n.value_size, (0, 0));
}

#[test]
fn empty_tree_is_idle() {
    // A tree with zero insertions: zero-area bounding region, empty traversal.
    let tree: SpatialTree<u32> = SpatialTree::new();
    assert_eq!(tree.size(), 0);
    assert_eq!(tree.region().area(), 0);
    assert_eq!(all_nodes(&tree).len(), 0);
    assert_eq!(occupied_footprints(&tree).len(), 0);
}

#[test]
fn first_insert_roots_the_tree() {
    let mut tree: SpatialTree<u32> = SpatialTree::new();
    assert!(tree.insert(1, 100, 50).is_ok());
    assert_eq!(tree.size(), 1);
    let r = tree.region();
    assert_eq!((r.top, r.left, r.width, r.height), (0, 0, 100, 50));
    let feet = occupied_footprints(&tree);
    assert_eq!(feet, vec![(0, 0, 100, 50)]);
}

#[test]
fn rejects_zero_sized_items() {
    let mut tree: SpatialTree<u32> = SpatialTree::new();
    assert_eq!(tree.insert(1, 0, 10), Err(InsertError::InvalidSize));
    assert_eq!(tree.insert(1, 10, 0), Err(InsertError::InvalidSize));
    assert_eq!(tree.size(), 0);
    assert_eq!(tree.region().area(), 0);
}

#[test]
fn rejects_first_item_larger_than_preset_region() {
    let mut tree: SpatialTree<u32> = SpatialTree::with_initial_size(5, 5);
    assert_eq!(tree.insert(1, 10, 10), Err(InsertError::CapacityExceeded));
    assert_eq!(tree.size(), 0);
    assert!(tree.insert(1, 4, 4).is_ok());
    // the preset bounding region is kept; the footprint is the exact size
    let r = tree.region();
    assert_eq!((r.width, r.height), (5, 5));
    assert_eq!(occupied_footprints(&tree), vec![(0, 0, 4, 4)]);
}

#[test]
fn rejects_growth_past_coordinate_range() {
    let mut tree: SpatialTree<u32> = SpatialTree::new();
    assert!(tree.insert(1, u32::MAX, u32::MAX).is_ok());
    // nothing fits, and growing either axis would leave u32
    assert_eq!(tree.insert(2, 2, 2), Err(InsertError::CapacityExceeded));
    assert_eq!(tree.size(), 1);
}

#[test]
fn scenario_four_items() {
    // insert (100,50), (50,50), (25,30), (25,30) in that order
    let mut tree: SpatialTree<u32> = SpatialTree::new();
    for (i, (w, h)) in [(100, 50), (50, 50), (25, 30), (25, 30)].iter().enumerate() {
        assert!(tree.insert(i as u32, *w, *h).is_ok());
    }
    assert_eq!(tree.size(), 4);
    let feet = occupied_footprints(&tree);
    assert_eq!(feet.len(), 4);
    // first item sits at the origin with the root footprint equal to its size
    assert_eq!(feet[0], (0, 0, 100, 50));
    // all four fit the bounding region without overlap
    let r = tree.region();
    assert_eq!((r.width, r.height), (100, 100));
    for f in &feet {
        assert!(f.1 + f.2 <= r.width && f.0 + f.3 <= r.height);
    }
    for i in 0..feet.len() {
        for j in 0..feet.len() {
            if i != j {
                assert!(!rects_overlap(feet[i], feet[j]));
            }
        }
    }
    // the exact first-fit placements
    assert_eq!(feet, vec![(0, 0, 100, 50), (50, 0, 50, 50), (50, 50, 25, 30), (50, 75, 25, 30)]);
}

#[test]
fn scenario_degenerate_leftovers_never_fit() {
    // insert (10,10) twice: the first split leaves only degenerate free
    // regions, so the second insertion must grow the tree instead of using
    // a zero-width or zero-height leftover
    let mut tree: SpatialTree<u32> = SpatialTree::new();
    assert!(tree.insert(1, 10, 10).is_ok());
    let feet1 = occupied_footprints(&tree);
    assert_eq!(feet1, vec![(0, 0, 10, 10)]);
    // the guillotine split of the root: right is zero-width, bottom zero-height
    let nodes = all_nodes(&tree);
    assert_eq!(nodes.len(), 3);
    let root = tree.node(nodes[0]);
    let right = tree.node(root.right.unwrap());
    let bottom = tree.node(root.bottom.unwrap());
    assert_eq!(
        (right.region.top, right.region.left, right.region.width, right.region.height),
        (0, 10, 0, 10)
    );
    assert_eq!(
        (bottom.region.top, bottom.region.left, bottom.region.width, bottom.region.height),
        (10, 0, 10, 0)
    );

    assert!(tree.insert(2, 10, 10).is_ok());
    assert_eq!(tree.size(), 2);
    let feet2 = occupied_footprints(&tree);
    assert_eq!(feet2.len(), 2);
    assert!(feet2.contains(&(0, 0, 10, 10)));
    assert!(feet2.contains(&(10, 0, 10, 10)));
    let r = tree.region();
    assert_eq!((r.width, r.height), (10, 20));
    assert!(!rects_overlap(feet2[0], feet2[1]));
}

#[test]
fn growth_preserves_placements() {
    // A and B are placed, then C forces a grow: A's and B's coordinates
    // must be unchanged afterwards
    let mut tree: SpatialTree<u32> = SpatialTree::new();
    assert!(tree.insert(1, 40, 40).is_ok());
    assert!(tree.insert(2, 40, 20).is_ok());
    let before = occupied_footprints(&tree);
    assert_eq!(before.len(), 2);
    let region_before = tree.region().clone();

    assert!(tree.insert(3, 60, 60).is_ok());
    let after = occupied_footprints(&tree);
    assert_eq!(after.len(), 3);
    for f in &before {
        assert!(after.contains(f));
    }
    // the grow really happened
    let r = tree.region();
    assert!(r.width > region_before.width || r.height > region_before.height);
}

#[test]
fn bounding_region_is_monotonic() {
    let mut tree: SpatialTree<u32> = SpatialTree::new();
    let mut last = (0u32, 0u32);
    for (i, (w, h)) in [(30, 10), (5, 5), (80, 40), (10, 90), (3, 3), (200, 7)]
        .iter()
        .enumerate()
    {
        assert!(tree.insert(i as u32, *w, *h).is_ok());
        let r = tree.region();
        assert!(r.width >= last.0 && r.height >= last.1);
        last = (r.width, r.height);
    }
}

#[test]
fn traversal_is_deterministic() {
    let mut tree: SpatialTree<u32> = SpatialTree::new();
    for (i, (w, h)) in [(100, 50), (50, 50), (25, 30), (25, 30), (70, 9)].iter().enumerate() {
        assert!(tree.insert(i as u32, *w, *h).is_ok());
    }
    let first = all_nodes(&tree);
    let second = all_nodes(&tree);
    assert_eq!(first, second);
    // every node is visited exactly once
    let mut sorted = first.clone();
    sorted.sort_unstable();
    sorted.dedup();
    assert_eq!(sorted.len(), first.len());
    assert_eq!(first.len(), tree.node_count());
    // occupied nodes yielded equals the item count
    let occupied = first
        .iter()
        .filter(|&&i| tree.node(i).value.is_some())
        .count();
    assert_eq!(occupied, tree.size());
    assert_eq!(occupied_footprints(&tree).len(), tree.size());
}

#[test]
fn split_tiles_exactly() {
    // for every occupied split node: footprint + right region + bottom
    // region tile the node's region exactly (areas add up, no overlap)
    let mut tree: SpatialTree<u32> = SpatialTree::new();
    for (i, (w, h)) in [(100, 50), (50, 50), (25, 30), (13, 7)].iter().enumerate() {
        assert!(tree.insert(i as u32, *w, *h).is_ok());
    }
    let mut checked = 0;
    for i in all_nodes(&tree) {
        let n = tree.node(i);
        if n.value.is_some() && n.right.is_some() {
            let right = tree.node(n.right.unwrap());
            let bottom = tree.node(n.bottom.unwrap());
            let (fw, fh) = n.value_size;
            // the exact guillotine regions
            assert_eq!(right.region.top, n.region.top);
            assert_eq!(right.region.left, n.region.left + fw);
            assert_eq!(right.region.width, n.region.width - fw);
            assert_eq!(right.region.height, fh);
            assert_eq!(bottom.region.top, n.region.top + fh);
            assert_eq!(bottom.region.left, n.region.left);
            assert_eq!(bottom.region.width, n.region.width);
            assert_eq!(bottom.region.height, n.region.height - fh);
            // areas add up with zero gap and zero overlap
            let total = (fw as u64) * (fh as u64)
                + (right.region.width as u64) * (right.region.height as u64)
                + (bottom.region.width as u64) * (bottom.region.height as u64);
            assert_eq!(total, (n.region.width as u64) * (n.region.height as u64));
            let foot = (n.region.top, n.region.left, fw, fh);
            let rr = (right.region.top, right.region.left, right.region.width, right.region.height);
            let bb = (
                bottom.region.top,
                bottom.region.left,
                bottom.region.width,
                bottom.region.height,
            );
            assert!(!rects_overlap(foot, rr));
            assert!(!rects_overlap(foot, bb));
            assert!(!rects_overlap(rr, bb));
            checked += 1;
        }
    }
    assert_eq!(checked, 4);
}

#[test]
fn no_overlap_after_many_insertions() {
    let mut tree: SpatialTree<u32> = SpatialTree::new();
    let sizes = [
        (90, 70),
        (64, 64),
        (64, 64),
        (50, 30),
        (30, 50),
        (30, 30),
        (20, 20),
        (20, 20),
        (10, 10),
        (7, 90),
        (90, 7),
        (1, 1),
    ];
    for (i, (w, h)) in sizes.iter().enumerate() {
        assert!(tree.insert(i as u32, *w, *h).is_ok());
    }
    assert_eq!(tree.size(), sizes.len());
    let feet = occupied_footprints(&tree);
    assert_eq!(feet.len(), sizes.len());
    let r = tree.region();
    for f in &feet {
        assert!(f.1 + f.2 <= r.width && f.0 + f.3 <= r.height);
    }
    for i in 0..feet.len() {
        for j in 0..feet.len() {
            if i != j {
                assert!(!rects_overlap(feet[i], feet[j]));
            }
        }
    }
}

#[test]
fn later_items_fill_leftover_regions() {
    // a small item takes the first adequate free region in traversal order
    let mut tree: SpatialTree<u32> = SpatialTree::new();
    assert!(tree.insert(1, 100, 100).is_ok());
    // grows downward, leaving a free 50x40 leftover right of the second item
    assert!(tree.insert(2, 50, 40).is_ok());
    assert!(tree.insert(3, 10, 10).is_ok());
    let feet = occupied_footprints(&tree);
    assert_eq!(feet, vec![(0, 0, 100, 100), (100, 0, 50, 40), (100, 50, 10, 10)]);
    let r = tree.region();
    assert_eq!((r.width, r.height), (100, 140));
}

#[test]
fn zero_area_preset_region_counts_as_unset() {
    // a preset bounding region with zero area is treated as absent: the
    // first insertion replaces it with the requested size, even when the
    // preset's other dimension was larger
    let mut tall: SpatialTree<u32> = SpatialTree::with_initial_size(0, 7);
    assert!(tall.insert(1, 5, 5).is_ok());
    let r = tall.region();
    assert_eq!((r.width, r.height), (5, 5));
    assert_eq!(occupied_footprints(&tall), vec![(0, 0, 5, 5)]);

    let mut wide: SpatialTree<u32> = SpatialTree::with_initial_size(7, 0);
    assert!(wide.insert(1, 5, 5).is_ok());
    let r = wide.region();
    assert_eq!((r.width, r.height), (5, 5));
    assert_eq!(occupied_footprints(&wide), vec![(0, 0, 5, 5)]);
}
