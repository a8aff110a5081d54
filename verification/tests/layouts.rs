use atlas_packer::limits::totals_fit;
use atlas_packer::order::ascending_indices;
use atlas_packer::{Pack, PackSolver, Point2, Vector2};

fn sizes(list: &[(u32, u32)]) -> Vec<Vector2<u32>> {
    list.iter().map(|&(x, y)| Vector2 { x, y }).collect()
}

fn solve(list: &[(u32, u32)]) -> Pack {
    let rects = sizes(list);
    PackSolver::new(&rects).solve()
}

fn placed(pack: &Pack) -> Vec<(u32, u32, usize)> {
    pack.output.iter().map(|&(at, index)| (at.x, at.y, index)).collect()
}

fn dimensions(pack: &Pack) -> (u32, u32) {
    (pack.dimensions.x, pack.dimensions.y)
}

fn overlapping(a: (u64, u64, u64, u64), b: (u64, u64, u64, u64)) -> bool {
    let (ax, ay, aw, ah) = a;
    let (bx, by, bw, bh) = b;
    aw > 0 && ah > 0 && bw > 0 && bh > 0 && ax < bx + bw && bx < ax + aw && ay < by + bh && by < ay + ah
}

fn check_laws(list: &[(u32, u32)]) {
    let pack = solve(list);
    assert_eq!(pack.output.len(), list.len());
    let mut seen = vec![false; list.len()];
    for &(_, index) in &pack.output {
        assert!(index < list.len());
        assert!(!seen[index]);
        seen[index] = true;
    }
    let boxes: Vec<(u64, u64, u64, u64)> = pack
        .output
        .iter()
        .map(|&(at, index)| (at.x as u64, at.y as u64, list[index].0 as u64, list[index].1 as u64))
        .collect();
    for i in 0..boxes.len() {
        for j in 0..boxes.len() {
            if i != j {
                assert!(!overlapping(boxes[i], boxes[j]), "{:?} and {:?}", boxes[i], boxes[j]);
            }
        }
    }
    let right = boxes.iter().map(|b| b.0 + b.2).max().unwrap_or(0);
    let bottom = boxes.iter().map(|b| b.1 + b.3).max().unwrap_or(0);
    assert_eq!(pack.dimensions.x as u64, right);
    assert_eq!(pack.dimensions.y as u64, bottom);
}

fn sample(count: usize, seed: u64, limit: u32) -> Vec<(u32, u32)> {
    let mut state = seed;
    let mut list = Vec::new();
    for _ in 0..count {
        state = state.wrapping_mul(6364136223846793005).wrapping_add(1442695040888963407);
        let x = ((state >> 33) as u32) % (limit + 1);
        state = state.wrapping_mul(6364136223846793005).wrapping_add(1442695040888963407);
        let y = ((state >> 33) as u32) % (limit + 1);
        list.push((x, y));
    }
    list
}

#[test]
fn single_rectangle_sits_at_the_origin() {
    let pack = solve(&[(10, 10)]);
    assert_eq!(pack.output, vec![(Point2 { x: 0, y: 0 }, 0)]);
    assert_eq!(pack.dimensions, Vector2 { x: 10, y: 10 });
}

#[test]
fn no_rectangles_give_an_empty_pack() {
    let pack = solve(&[]);
    assert!(pack.output.is_empty());
    assert_eq!(pack.dimensions, Vector2 { x: 0, y: 0 });
}

#[test]
fn four_rectangles_are_laid_out_on_two_shelves() {
    let pack = solve(&[(10, 10), (12, 10), (10, 15), (20, 5)]);
    assert_eq!(placed(&pack), vec![(0, 0, 2), (10, 0, 3), (10, 5, 0), (0, 15, 1)]);
    assert_eq!(dimensions(&pack), (30, 25));
    check_laws(&[(10, 10), (12, 10), (10, 15), (20, 5)]);
}

#[test]
fn the_shortest_are_stacked_beside_the_anchor() {
    let pack = solve(&[(4, 10), (3, 4), (2, 3), (1, 2), (1, 1)]);
    assert_eq!(placed(&pack), vec![(0, 0, 0), (4, 0, 4), (4, 1, 3), (4, 3, 2), (4, 6, 1)]);
    assert_eq!(dimensions(&pack), (7, 10));
}

#[test]
fn the_stack_stops_at_the_height_of_the_anchor() {
    let pack = solve(&[(8, 2), (6, 6), (3, 3), (2, 1), (1, 1), (7, 4)]);
    assert_eq!(
        placed(&pack),
        vec![(0, 0, 1), (6, 0, 3), (6, 1, 4), (6, 2, 0), (0, 6, 5), (7, 6, 2)]
    );
    assert_eq!(dimensions(&pack), (14, 10));
}

#[test]
fn a_shelf_goes_on_to_the_right_while_the_layout_is_high() {
    let pack = solve(&[(2, 8), (2, 8), (2, 8)]);
    assert_eq!(placed(&pack), vec![(0, 0, 2), (2, 0, 0), (4, 0, 1)]);
    assert_eq!(dimensions(&pack), (6, 8));
}

#[test]
fn equal_rectangles_are_taken_by_index() {
    let pack = solve(&[(3, 3), (3, 3), (3, 3), (3, 3)]);
    assert_eq!(placed(&pack), vec![(0, 0, 3), (3, 0, 0), (0, 3, 2), (3, 3, 1)]);
    assert_eq!(dimensions(&pack), (6, 6));
}

#[test]
fn rectangles_without_width_or_height_are_placed() {
    let list = [(5, 5), (0, 3), (3, 0), (0, 0)];
    let pack = solve(&list);
    assert_eq!(placed(&pack), vec![(0, 0, 0), (5, 0, 2), (5, 0, 3), (5, 0, 1)]);
    assert_eq!(dimensions(&pack), (8, 5));
    check_laws(&list);
}

#[test]
fn every_rectangle_is_placed_once_and_none_overlap() {
    for seed in 0..40u64 {
        let count = (seed as usize * 7) % 60;
        check_laws(&sample(count, seed, 50));
        check_laws(&sample(count, seed + 1000, 3));
        check_laws(&sample(count, seed + 2000, 40_000_000));
    }
}

#[test]
fn every_front_part_of_an_input_is_laid_out_soundly() {
    let list = sample(60, 77, 30);
    for n in 0..=list.len() {
        check_laws(&list[..n]);
    }
}

#[test]
fn the_same_input_gives_the_same_pack() {
    let list = sample(50, 5, 20);
    let first = solve(&list);
    let second = solve(&list);
    assert_eq!(first.output, second.output);
    assert_eq!(first.dimensions, second.dimensions);
}

#[test]
fn a_scaled_input_gives_the_scaled_layout() {
    for seed in 0..20u64 {
        let list = sample(30, seed, 25);
        let pack = solve(&list);
        for factor in [1u32, 2, 3, 7, 1000] {
            let big: Vec<(u32, u32)> = list.iter().map(|&(x, y)| (x * factor, y * factor)).collect();
            let scaled = solve(&big);
            let expected: Vec<(u32, u32, usize)> =
                placed(&pack).iter().map(|&(x, y, i)| (x * factor, y * factor, i)).collect();
            assert_eq!(placed(&scaled), expected);
            assert_eq!(
                dimensions(&scaled),
                (pack.dimensions.x * factor, pack.dimensions.y * factor)
            );
        }
    }
}

#[test]
fn rearranging_equal_heights_can_change_the_dimensions() {
    let pack = solve(&[(1, 4), (0, 1), (5, 4)]);
    assert_eq!(placed(&pack), vec![(0, 0, 2), (5, 0, 1), (0, 4, 0)]);
    assert_eq!(dimensions(&pack), (5, 8));
    let other = solve(&[(0, 1), (5, 4), (1, 4)]);
    assert_eq!(placed(&other), vec![(0, 0, 2), (1, 0, 0), (1, 0, 1)]);
    assert_eq!(dimensions(&other), (6, 4));
}

#[test]
fn rearranging_distinct_sizes_keeps_the_layout() {
    let list = [(7u32, 4u32), (3, 9), (5, 2), (1, 6), (8, 1), (2, 7)];
    let order = [4usize, 0, 5, 2, 1, 3];
    let moved: Vec<(u32, u32)> = order.iter().map(|&i| list[i]).collect();
    let pack = solve(&list);
    let other = solve(&moved);
    assert_eq!(dimensions(&pack), dimensions(&other));
    let renamed: Vec<(u32, u32, usize)> =
        placed(&other).iter().map(|&(x, y, i)| (x, y, order[i])).collect();
    assert_eq!(placed(&pack), renamed);
}

#[test]
fn the_largest_rectangle_fits() {
    let pack = solve(&[(u32::MAX, u32::MAX)]);
    assert_eq!(placed(&pack), vec![(0, 0, 0)]);
    assert_eq!(dimensions(&pack), (u32::MAX, u32::MAX));
}

#[test]
fn totals_within_the_limit_fit() {
    assert!(totals_fit(&sizes(&[])));
    assert!(totals_fit(&sizes(&[(u32::MAX, u32::MAX)])));
    assert!(totals_fit(&sizes(&[(u32::MAX - 1, 7), (1, u32::MAX - 7)])));
    assert!(totals_fit(&sizes(&[(10, 10), (12, 10), (10, 15), (20, 5)])));
}

#[test]
fn totals_beyond_the_limit_do_not_fit() {
    assert!(!totals_fit(&sizes(&[(u32::MAX, 1), (1, 1)])));
    assert!(!totals_fit(&sizes(&[(1, 1), (1, u32::MAX)])));
    assert!(!totals_fit(&sizes(&[(3_000_000_000, 1), (3_000_000_000, 1)])));
    assert!(!totals_fit(&sizes(&[(1, 3_000_000_000), (1, 3_000_000_000)])));
}

#[test]
fn a_layout_can_fit_though_the_totals_do_not() {
    let list = [(1, 3_000_000_000), (1, 3_000_000_000)];
    assert!(!totals_fit(&sizes(&list)));
    let pack = solve(&list);
    assert_eq!(placed(&pack), vec![(0, 0, 1), (1, 0, 0)]);
    assert_eq!(dimensions(&pack), (2, 3_000_000_000));
}

#[test]
fn indices_are_arranged_by_key_and_then_by_index() {
    assert_eq!(ascending_indices(&vec![5, 1, 5, 0, 1]), vec![3, 1, 4, 0, 2]);
    assert_eq!(ascending_indices(&vec![9, 8, 7, 6]), vec![3, 2, 1, 0]);
    assert_eq!(ascending_indices(&vec![2, 2, 2]), vec![0, 1, 2]);
    assert_eq!(ascending_indices(&vec![]), Vec::<usize>::new());
    assert_eq!(ascending_indices(&vec![u32::MAX, 0]), vec![1, 0]);
}

#[test]
fn a_layout_beyond_the_coordinates_is_not_given() {
    let wide = sizes(&[(3_000_000_000, 1), (3_000_000_000, 1)]);
    assert!(PackSolver::new(&wide).try_solve().is_none());
    let corner = sizes(&[(u32::MAX, 1), (1, u32::MAX - 1)]);
    assert!(PackSolver::new(&corner).try_solve().is_none());
    let high = sizes(&[(4_000_000_000, 3_000_000_000), (5, 2_000_000_000), (7, 2_000_000_000)]);
    assert!(PackSolver::new(&high).try_solve().is_none());
}

#[test]
fn a_layout_within_the_coordinates_is_given() {
    let list = [(10, 10), (12, 10), (10, 15), (20, 5)];
    let pack = PackSolver::new(&sizes(&list)).try_solve().unwrap();
    assert_eq!(placed(&pack), vec![(0, 0, 2), (10, 0, 3), (10, 5, 0), (0, 15, 1)]);
    assert_eq!(dimensions(&pack), (30, 25));
    let edge = sizes(&[(u32::MAX - 1, 1), (1, 1)]);
    let pack = PackSolver::new(&edge).try_solve().unwrap();
    assert_eq!(placed(&pack), vec![(0, 0, 1), (1, 0, 0)]);
    assert_eq!(dimensions(&pack), (u32::MAX, 1));
    let empty = sizes(&[]);
    let pack = PackSolver::new(&empty).try_solve().unwrap();
    assert!(pack.output.is_empty());
    let high = sizes(&[(1, 10), (5, 5), (1, u32::MAX), (4, 2)]);
    let pack = PackSolver::new(&high).try_solve().unwrap();
    assert_eq!(placed(&pack), vec![(0, 0, 2), (1, 0, 3), (1, 2, 1), (1, 7, 0)]);
    assert_eq!(dimensions(&pack), (6, u32::MAX));
}

#[test]
fn a_column_takes_what_fits_under_the_budget() {
    let rects = sizes(&[(1, 4), (1, 1), (1, 2), (1, 3), (1, 0)]);
    let by_height = vec![4, 1, 2, 3, 0];
    assert_eq!(atlas_packer::selection::stack(&rects, &by_height, 6), vec![4, 1, 2, 3]);
    assert_eq!(atlas_packer::selection::stack(&rects, &by_height, 5), vec![4, 1, 2]);
    assert_eq!(atlas_packer::selection::stack(&rects, &by_height, 3), vec![4, 1, 2]);
    assert_eq!(atlas_packer::selection::stack(&rects, &by_height, 0), vec![4]);
    assert_eq!(atlas_packer::selection::stack(&rects, &vec![0, 1], 3), Vec::<usize>::new());
    assert_eq!(atlas_packer::selection::stack(&rects, &vec![], 3), Vec::<usize>::new());
}

#[test]
fn a_row_takes_what_is_lower_and_fits_beside() {
    let rects = sizes(&[(2, 1), (3, 1), (4, 5), (1, 9), (0, 0)]);
    let by_width = vec![4, 3, 0, 1, 2];
    let row = atlas_packer::selection::row;
    assert_eq!(row(&rects, &vec![0, 1, 2], &vec![], 5, 2), vec![0, 1]);
    assert_eq!(row(&rects, &vec![0, 1, 2], &vec![], 4, 2), vec![0]);
    assert_eq!(row(&rects, &vec![0, 1, 2], &vec![0], 5, 2), vec![1]);
    assert_eq!(row(&rects, &vec![0, 1, 2], &vec![0, 1], 5, 6), vec![2]);
    assert_eq!(row(&rects, &vec![0, 1, 2], &vec![], 5, 1), Vec::<usize>::new());
    assert_eq!(row(&rects, &by_width, &vec![], 9, 2), vec![4]);
    assert_eq!(row(&rects, &by_width, &vec![3], 9, 2), vec![4, 0, 1]);
    assert_eq!(row(&rects, &by_width, &vec![3], 9, 6), vec![4, 0, 1, 2]);
    assert_eq!(row(&rects, &by_width, &vec![3], 8, 6), vec![4, 0, 1]);
    assert_eq!(row(&rects, &vec![], &vec![3], 8, 6), Vec::<usize>::new());
}

#[test]
fn a_rectangle_is_found_where_it_was_placed() {
    let pack = solve(&[(10, 10), (12, 10), (10, 15), (20, 5)]);
    assert_eq!(pack.position_of(0), Some(Point2 { x: 10, y: 5 }));
    assert_eq!(pack.position_of(1), Some(Point2 { x: 0, y: 15 }));
    assert_eq!(pack.position_of(2), Some(Point2 { x: 0, y: 0 }));
    assert_eq!(pack.position_of(3), Some(Point2 { x: 10, y: 0 }));
    assert_eq!(pack.position_of(4), None);
    assert_eq!(solve(&[]).position_of(0), None);
}

/// The layout worked out with plain lists, one step after the other.
fn by_hand(list: &[(u32, u32)]) -> (Vec<(u32, u32, usize)>, (u32, u32)) {
    let mut shortest: Vec<usize> = (0..list.len()).collect();
    shortest.sort_by_key(|&i| (list[i].1, i));
    let mut thinnest: Vec<usize> = (0..list.len()).collect();
    thinnest.sort_by_key(|&i| (list[i].0, i));
    let mut output = Vec::new();
    let mut dimensions = (0u32, 0u32);
    let mut x = 0u32;
    let mut y = 0u32;
    let mut tallest_in_row = 0u32;
    while !shortest.is_empty() {
        let mut put = |shortest: &mut Vec<usize>, thinnest: &mut Vec<usize>, x: u32, y: u32, i: usize| {
            shortest.retain(|&other| other != i);
            thinnest.retain(|&other| other != i);
            output.push((x, y, i));
            dimensions.0 = dimensions.0.max(x + list[i].0);
            dimensions.1 = dimensions.1.max(y + list[i].1);
        };
        let anchor = *shortest.last().unwrap();
        put(&mut shortest, &mut thinnest, x, y, anchor);
        tallest_in_row = tallest_in_row.max(list[anchor].1);
        x += list[anchor].0;
        let mut column = Vec::new();
        let mut left = list[anchor].1;
        for &i in &shortest {
            if list[i].1 > left {
                break;
            }
            column.push(i);
            left -= list[i].1;
        }
        let mut below = y;
        let mut reach = 0u32;
        for &member in &column {
            put(&mut shortest, &mut thinnest, x, below, member);
            let mut row = Vec::new();
            let mut left = list[member].0;
            for &i in &thinnest {
                if column.contains(&i) {
                    continue;
                }
                if list[i].0 > left || list[i].1 >= list[member].1 {
                    break;
                }
                row.push(i);
                left -= list[i].0;
            }
            let mut beside = x + list[member].0;
            for &i in &row {
                put(&mut shortest, &mut thinnest, beside, below, i);
                beside += list[i].0;
            }
            reach = reach.max(beside);
            below += list[member].1;
        }
        if dimensions.1 >= dimensions.0 {
            x = reach;
        } else {
            y += tallest_in_row;
            x = 0;
            tallest_in_row = 0;
        }
    }
    (output, dimensions)
}

#[test]
fn the_layout_is_the_one_worked_out_by_hand() {
    for seed in 0..200u64 {
        for limit in [2u32, 9, 60, 5_000_000] {
            let list = sample((seed as usize * 13) % 45, seed * 31 + limit as u64, limit);
            let pack = solve(&list);
            let (output, size) = by_hand(&list);
            assert_eq!(placed(&pack), output);
            assert_eq!(dimensions(&pack), size);
        }
    }
}
