use blockcopy::alias_tree::AliasTree;
use blockcopy::lattice::NonZero;

#[test]
fn test_power_of_2() {
    let mut alias_tree: AliasTree<u8> = AliasTree::new(256, 0);

    assert_eq!(alias_tree.level_count(), 9);
    assert_eq!(alias_tree.level_len(0), 256);
    assert_eq!(alias_tree.level_len(1), 128);
    assert_eq!(alias_tree.level_len(8), 1);

    assert_eq!(*alias_tree.get(0), 0);
    assert_eq!(*alias_tree.get(1), 0);
    assert_eq!(*alias_tree.get(16), 0);
    assert_eq!(*alias_tree.get(255), 0);

    alias_tree.set(123, 1);
    alias_tree.set(200, 2);

    assert_eq!(*alias_tree.get(100), 0);
    assert_eq!(*alias_tree.get(123), 1);
    assert_eq!(*alias_tree.get(200), 2);

    assert_eq!(*alias_tree.get_aliased(100, 1), 0);
    assert_eq!(*alias_tree.get_aliased(122, 0), 0);
    assert_eq!(*alias_tree.get_aliased(123, 0), 1);
    assert_eq!(*alias_tree.get_aliased(124, 0), 0);
    assert_eq!(*alias_tree.get_aliased(123, 1), 1);
    assert_eq!(*alias_tree.get_aliased(122, 1), 1);
    assert_eq!(*alias_tree.get_aliased(124, 1), 0);
    assert_eq!(*alias_tree.get_aliased(120, 1), 0);
    assert_eq!(*alias_tree.get_aliased(120, 2), 1);
    assert_eq!(*alias_tree.get_aliased(89, 8), 3);
}

#[test]
fn test_power_of_2_minus_1() {
    let mut alias_tree: AliasTree<u8> = AliasTree::new(7, 0);

    for i in 0..7 {
        alias_tree.set(i, 1 << i);
    }
    for i in 0..7 {
        assert_eq!(*alias_tree.get(i), 1 << i);
        assert_eq!(*alias_tree.get_aliased(i, 0), 1 << i);
    }
    assert_eq!(*alias_tree.get_aliased(0, 1), 0x03);
    assert_eq!(*alias_tree.get_aliased(1, 1), 0x03);
    assert_eq!(*alias_tree.get_aliased(2, 1), 0x0c);
    assert_eq!(*alias_tree.get_aliased(3, 1), 0x0c);
    assert_eq!(*alias_tree.get_aliased(4, 1), 0x30);
    assert_eq!(*alias_tree.get_aliased(5, 1), 0x30);
    assert_eq!(*alias_tree.get_aliased(6, 1), 0x40);

    assert_eq!(*alias_tree.get_aliased(0, 2), 0x0f);
    assert_eq!(*alias_tree.get_aliased(1, 2), 0x0f);
    assert_eq!(*alias_tree.get_aliased(2, 2), 0x0f);
    assert_eq!(*alias_tree.get_aliased(3, 2), 0x0f);
    assert_eq!(*alias_tree.get_aliased(4, 2), 0x30);
    assert_eq!(*alias_tree.get_aliased(5, 2), 0x30);
    assert_eq!(*alias_tree.get_aliased(6, 2), 0x40);

    assert_eq!(*alias_tree.get_aliased(0, 3), 0x0f);
    assert_eq!(*alias_tree.get_aliased(1, 3), 0x0f);
    assert_eq!(*alias_tree.get_aliased(2, 3), 0x0f);
    assert_eq!(*alias_tree.get_aliased(3, 3), 0x0f);
    assert_eq!(*alias_tree.get_aliased(4, 3), 0x30);
    assert_eq!(*alias_tree.get_aliased(5, 3), 0x30);
    assert_eq!(*alias_tree.get_aliased(6, 3), 0x40);
}

#[test]
fn test_all_seek() {
    let mut alias_tree: AliasTree<u8> = AliasTree::new(7, 0);
    for i in 0..7 {
        assert_eq!(alias_tree.find_next(NonZero, i), None);
    }
    for i in 0..7 {
        alias_tree.set(i, 1);
    }
    for i in 0..7 {
        assert_eq!(alias_tree.find_next(NonZero, i), Some(i));
    }
}

#[test]
fn test_odd_seek() {
    let mut alias_tree: AliasTree<u8> = AliasTree::new(7, 0);
    for i in 0..7 {
        if i & 1 == 1 {
            alias_tree.set(i, 1);
        }
    }
    for i in 0..6 {
        let expected = i | 1;
        assert_eq!(alias_tree.find_next(NonZero, i), Some(expected));
    }
    assert_eq!(alias_tree.find_next(NonZero, 6), None);
}

#[test]
fn test_even_seek() {
    let mut alias_tree: AliasTree<u8> = AliasTree::new(7, 0);
    for i in 0..7 {
        if i & 1 == 0 {
            alias_tree.set(i, 1);
        }
    }
    for i in 0..7 {
        let expected = (i + 1) & 6;
        assert_eq!(alias_tree.find_next(NonZero, i), Some(expected));
    }
}

#[test]
fn test_single_seek() {
    for i in 0..7 {
        let mut alias_tree: AliasTree<u8> = AliasTree::new(7, 0);
        alias_tree.set(i, 1);
        for j in 0..7 {
            let expected = if i >= j { Some(i) } else { None };
            assert_eq!(alias_tree.find_next(NonZero, j), expected);
        }
    }
}

#[test]
fn test_no_spill_seek() {
    let alias_tree: AliasTree<u8> = AliasTree::new(8, 0);
    assert_eq!(alias_tree.find_next(NonZero, 0), None);
}

#[test]
fn empty_tree_has_no_levels_and_finds_nothing() {
    let alias_tree: AliasTree<u8> = AliasTree::new(0, 0);
    assert_eq!(alias_tree.level_count(), 0);
    assert_eq!(alias_tree.len(), 0);
    assert_eq!(alias_tree.find_next(NonZero, 0), None);
    assert_eq!(alias_tree.find_next(NonZero, 5), None);
}

#[test]
fn single_leaf_tree_finds_itself_only_when_set() {
    let mut alias_tree: AliasTree<u8> = AliasTree::new(1, 0);
    assert_eq!(alias_tree.level_count(), 1);
    assert_eq!(alias_tree.find_next(NonZero, 0), None);
    alias_tree.set(0, 4);
    assert_eq!(alias_tree.find_next(NonZero, 0), Some(0));
    assert_eq!(alias_tree.find_next(NonZero, 1), None);
}

#[test]
fn or_and_masks_keep_aggregates() {
    let mut alias_tree: AliasTree<u8> = AliasTree::new(5, 2);
    assert_eq!(*alias_tree.get_aliased(0, 2), 2);
    assert_eq!(alias_tree.or_mask(3, 1), 3);
    assert_eq!(*alias_tree.get_aliased(0, 2), 3);
    assert_eq!(*alias_tree.get_aliased(4, 2), 2);
    for i in 0..5 {
        alias_tree.and_mask(i, 1);
    }
    assert_eq!(*alias_tree.get_aliased(1, 2), 1);
    assert_eq!(*alias_tree.get_aliased(4, 5), 0);
    assert_eq!(alias_tree.find_next(NonZero, 0), Some(3));
    assert_eq!(alias_tree.find_next(NonZero, 4), None);
}

#[test]
fn spill_tree_found_from_every_start() {
    // 13 leaves: levels of 13, 6, 3, 1 nodes, with spills at the end.
    let mut alias_tree: AliasTree<u8> = AliasTree::new(13, 0);
    alias_tree.set(12, 1);
    for i in 0..13 {
        assert_eq!(alias_tree.find_next(NonZero, i), Some(12));
    }
    alias_tree.set(12, 0);
    alias_tree.set(9, 8);
    for i in 0..10 {
        assert_eq!(alias_tree.find_next(NonZero, i), Some(9));
    }
    for i in 10..13 {
        assert_eq!(alias_tree.find_next(NonZero, i), None);
    }
}
