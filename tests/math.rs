use ncube::math::{ExtendedMathOps, PermuteFour};

#[test]
fn factorials() {
    assert_eq!(0usize.factorial(), 1);
    assert_eq!(1usize.factorial(), 1);
    assert_eq!(5usize.factorial(), 120);
    assert_eq!(20usize.factorial(), 2432902008176640000);
}

#[test]
fn binomial_coefficients() {
    assert_eq!(4usize.permute(0), 1);
    assert_eq!(4usize.permute(2), 6);
    assert_eq!(9usize.permute(2), 36);
    assert_eq!(9usize.permute(9), 1);
    assert_eq!(20usize.permute(10), 184756);
}

#[test]
fn pairs_in_lexicographic_order() {
    assert_eq!(
        usize::pair_permutations(0, 3),
        vec![(0, 1), (0, 2), (0, 3), (1, 2), (1, 3), (2, 3)]
    );
    assert_eq!(usize::pair_permutations(2, 4), vec![(2, 3), (2, 4), (3, 4)]);
    assert_eq!(usize::pair_permutations(3, 3), vec![]);
    assert_eq!(usize::pair_permutations(4, 1), vec![]);
}

#[test]
fn four_combinations() {
    let items = vec!['a', 'b', 'c', 'd', 'e'];
    assert_eq!(
        items.permute_four(),
        vec![
            ['a', 'b', 'c', 'd'],
            ['a', 'b', 'c', 'e'],
            ['a', 'b', 'd', 'e'],
            ['a', 'c', 'd', 'e'],
            ['b', 'c', 'd', 'e'],
        ]
    );
    assert_eq!(vec![1, 2, 3, 4].permute_four(), vec![[1, 2, 3, 4]]);
    assert_eq!(vec![1, 2, 3].permute_four(), Vec::<[i32; 4]>::new());
    assert_eq!(Vec::<u8>::new().permute_four(), Vec::<[u8; 4]>::new());
    assert_eq!((0..8).collect::<Vec<u32>>().permute_four().len(), 70);
}
