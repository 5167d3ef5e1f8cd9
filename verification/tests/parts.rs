use raptorq_reduced::base::{
    deg, intermediate_tuple, partition, EncodingPacket, IntermediateTuple, PayloadId,
};
use raptorq_reduced::constraint_matrix::{
    enc_indices, generate_hdpc_rows, ldpc_rows, lt_row, nonzero_columns,
};
use raptorq_reduced::elimination::eliminate_pivots;
use raptorq_reduced::octet::{mul_bytes, Octet};
use raptorq_reduced::primes::is_prime_u32;
use raptorq_reduced::reduction::free_columns;
use raptorq_reduced::rng::rand;
use raptorq_reduced::sparse_row::SparseRow;
use raptorq_reduced::sub_blocks::assemble_block;
use raptorq_reduced::symbol::Symbol;
use raptorq_reduced::systematic_constants::{BlockParameters, CodeTables};

fn block(kprime: u32, systematic_index: u32, ldpc: u32, hdpc: u32, lt: u32) -> BlockParameters {
    BlockParameters {
        kprime,
        systematic_index,
        ldpc_symbols: ldpc,
        hdpc_symbols: hdpc,
        lt_symbols: lt,
    }
}

fn words() -> Vec<Vec<u32>> {
    let mut state: u64 = 1;
    let mut words: Vec<Vec<u32>> = Vec::new();
    for _ in 0..4 {
        let mut table = Vec::new();
        for _ in 0..256 {
            state = state
                .wrapping_mul(6364136223846793005)
                .wrapping_add(1442695040888963407);
            table.push((state >> 32) as u32);
        }
        words.push(table);
    }
    words
}

fn tables_for(blocks: Vec<BlockParameters>) -> Option<CodeTables> {
    let w = words();
    CodeTables::new(blocks, w[0].clone(), w[1].clone(), w[2].clone(), w[3].clone())
}

fn tables() -> CodeTables {
    tables_for(vec![
        block(26, 80, 11, 10, 37),
        block(32, 860, 11, 10, 43),
        block(200, 491, 23, 10, 211),
    ])
    .unwrap()
}

fn row(cols: &[(u32, u8)], rhs: &[u8]) -> SparseRow {
    SparseRow::new(cols.to_vec(), Symbol::new(rhs.to_vec()))
}

#[test]
fn field_products_and_quotients() {
    assert_eq!(mul_bytes(2, 0x80), 0x1d);
    assert_eq!(mul_bytes(0x53, 0xca), 0x8f);
    assert_eq!(mul_bytes(0, 0xff), 0);
    assert_eq!((Octet::new(3) * Octet::new(7)).byte(), 9);
    assert_eq!((Octet::one() / Octet::new(2)).byte(), 0x8e);
    for a in 1..=255u8 {
        let inverse = Octet::one() / Octet::new(a);
        assert_eq!((inverse * Octet::new(a)).byte(), 1);
        assert_eq!((Octet::new(9) / Octet::new(a) * Octet::new(a)).byte(), 9);
    }
    assert_eq!(Octet::zero().byte(), 0);
}

#[test]
fn powers_of_the_generator() {
    assert_eq!(Octet::alpha(0).byte(), 1);
    assert_eq!(Octet::alpha(1).byte(), 2);
    assert_eq!(Octet::alpha(8).byte(), 0x1d);
    assert_eq!(Octet::alpha(254).byte(), 0x8e);
    assert_eq!(Octet::alpha(255).byte(), 1);
}

#[test]
fn field_laws_on_values() {
    for &(a, b, c) in &[(3u8, 200u8, 77u8), (255, 254, 1), (0, 18, 19)] {
        assert_eq!(mul_bytes(a, b), mul_bytes(b, a));
        assert_eq!(mul_bytes(mul_bytes(a, b), c), mul_bytes(a, mul_bytes(b, c)));
        assert_eq!(mul_bytes(a, b ^ c), mul_bytes(a, b) ^ mul_bytes(a, c));
    }
}

#[test]
fn symbol_operations() {
    let mut a = Symbol::new(vec![1, 2, 0x80]);
    let b = Symbol::new(vec![4, 5, 6]);
    assert_eq!(a.len(), 3);
    a.add_assign(&b);
    assert_eq!(a.as_bytes(), &[5, 7, 0x86]);
    a.add_assign(&b);
    assert_eq!(a.as_bytes(), &[1, 2, 0x80]);
    a.mulassign_scalar(&Octet::new(2));
    assert_eq!(a.as_bytes(), &[2, 4, 0x1d]);
    a.fused_addassign_mul_scalar(&b, &Octet::new(3));
    assert_eq!(a.as_bytes(), &[2 ^ 12, 4 ^ 15, 0x1d ^ 10]);
    assert_eq!(a.clone().as_bytes(), a.as_bytes());
    assert_eq!(Symbol::zero(4).as_bytes(), &[0, 0, 0, 0]);
}

#[test]
fn rows_are_sorted_and_without_zeros() {
    let r = row(&[(9, 3), (2, 0), (5, 7), (0, 1)], &[8]);
    assert_eq!(r.cols, vec![(0, 1), (5, 7), (9, 3)]);
    assert_eq!(r.rhs.as_bytes(), &[8]);
    assert_eq!(r.min_col(), Some(0));
    assert_eq!(r.coeff_at(5), 7);
    assert_eq!(r.coeff_at(2), 0);
    assert_eq!(r.coeff_at(9), 3);
    assert_eq!(r.coeff_at(100), 0);
    assert_eq!(row(&[(4, 0)], &[]).min_col(), None);
}

#[test]
fn the_same_entries_give_the_same_row() {
    let first = row(&[(9, 3), (5, 7), (0, 1), (2, 0)], &[8]);
    let second = row(&[(0, 1), (5, 7), (9, 3)], &[8]);
    assert_eq!(first.cols, second.cols);
    assert_eq!(first.rhs.as_bytes(), second.rhs.as_bytes());
}

#[test]
fn adding_a_multiple_of_a_row() {
    let mut r = row(&[(0, 1), (2, 3), (4, 6)], &[1, 1]);
    let other = row(&[(1, 5), (2, 3), (4, 1), (7, 9)], &[2, 3]);
    r.fma(&other, &Octet::one());
    assert_eq!(r.cols, vec![(0, 1), (1, 5), (4, 7), (7, 9)]);
    assert_eq!(r.rhs.as_bytes(), &[3, 2]);
    r.fma(&other, &Octet::zero());
    assert_eq!(r.cols, vec![(0, 1), (1, 5), (4, 7), (7, 9)]);
    r.fma(&other, &Octet::new(2));
    assert_eq!(r.cols, vec![(0, 1), (1, 15), (2, 6), (4, 5), (7, 27)]);
    assert_eq!(r.rhs.as_bytes(), &[7, 4]);
}

#[test]
fn adding_zero_times_any_row_changes_nothing() {
    let mut r = SparseRow {
        cols: vec![(9, 0), (2, 3), (2, 5)],
        rhs: Symbol::new(vec![1, 2]),
    };
    let other = row(&[(1, 5)], &[2, 3, 4]);
    r.fma(&other, &Octet::zero());
    assert_eq!(r.cols, vec![(9, 0), (2, 3), (2, 5)]);
    assert_eq!(r.rhs.as_bytes(), &[1, 2]);
}

#[test]
fn adding_a_multiple_twice_undoes_it() {
    let start = row(&[(0, 1), (2, 3), (4, 6)], &[1, 200]);
    let other = row(&[(1, 5), (2, 3), (4, 1), (7, 9)], &[2, 3]);
    let mut r = start.clone();
    for scalar in 0..=255u8 {
        r.fma(&other, &Octet::new(scalar));
        r.fma(&other, &Octet::new(scalar));
        assert_eq!(r.cols, start.cols);
        assert_eq!(r.rhs.as_bytes(), start.rhs.as_bytes());
    }
}

#[test]
fn normalizing_a_pivot() {
    let mut r = row(&[(1, 4), (3, 2)], &[6]);
    assert!(r.normalize_pivot(2).is_none());
    assert_eq!(r.cols, vec![(1, 4), (3, 2)]);
    assert_eq!(r.rhs.as_bytes(), &[6]);
    assert!(r.normalize_pivot(3).is_some());
    assert_eq!(r.cols, vec![(1, 2), (3, 1)]);
    assert_eq!(r.rhs.as_bytes(), &[3]);
}

#[test]
fn eliminating_pivot_columns() {
    // x0 + 2 x1 + x2 = 5 and x1 + 3 x2 = 7, with x2 free.
    let pivots = vec![row(&[(0, 1), (1, 2), (2, 1)], &[5]), row(&[(1, 1), (2, 3)], &[7])];
    let is_free = [false, false, true];
    let mut r = row(&[(0, 4), (2, 1)], &[0]);
    eliminate_pivots(&mut r, &pivots, &is_free);
    // 4 x0 + x2 = 4 (5 + 2 (7 + 3 x2) + x2) + x2.
    let coef = 1 ^ mul_bytes(4, 1 ^ mul_bytes(2, 3));
    let rhs = mul_bytes(4, 5 ^ mul_bytes(2, 7));
    assert_eq!(r.cols, vec![(2, coef)]);
    assert_eq!(r.rhs.as_bytes(), &[rhs]);
    assert_eq!(free_columns(&is_free), vec![2]);
    assert_eq!(free_columns(&[true, false, true, true]), vec![0, 2, 3]);
}

#[test]
fn rows_over_free_columns_are_left_alone() {
    // Neither of the pivot rows is of use here.
    let pivots = vec![row(&[], &[]), row(&[(7, 3)], &[1, 2, 3])];
    let is_free = [true, false, true];
    let mut r = SparseRow {
        cols: vec![(2, 4), (0, 9), (2, 1)],
        rhs: Symbol::new(vec![6]),
    };
    eliminate_pivots(&mut r, &pivots, &is_free);
    assert_eq!(r.cols, vec![(2, 4), (0, 9), (2, 1)]);
    assert_eq!(r.rhs.as_bytes(), &[6]);
    let mut empty = row(&[], &[5]);
    eliminate_pivots(&mut empty, &[], &is_free);
    assert!(empty.cols.is_empty());
    assert_eq!(empty.rhs.as_bytes(), &[5]);
}

#[test]
fn the_remainder_is_unique() {
    // The pivot rows are not normalized: 3 x0 + 2 x1 + x3 and 7 x1 + 5 x2.
    let pivots = vec![
        row(&[(0, 3), (1, 2), (3, 1)], &[5, 1]),
        row(&[(1, 7), (2, 5)], &[7, 9]),
    ];
    let is_free = [false, false, true, true];
    let start = row(&[(0, 4), (1, 1), (3, 6)], &[0, 8]);
    let mut left = start.clone();
    eliminate_pivots(&mut left, &pivots, &is_free);
    assert!(left.cols.iter().all(|&(c, _)| is_free[c as usize]));
    for pivot in &pivots {
        for scalar in 0..=255u8 {
            let mut other = start.clone();
            other.fma(pivot, &Octet::new(scalar));
            eliminate_pivots(&mut other, &pivots, &is_free);
            assert_eq!(other.cols, left.cols);
            assert_eq!(other.rhs.as_bytes(), left.rhs.as_bytes());
        }
    }
    let mut again = left.clone();
    eliminate_pivots(&mut again, &pivots, &is_free);
    assert_eq!(again.cols, left.cols);
    assert_eq!(again.rhs.as_bytes(), left.rhs.as_bytes());
}

#[test]
fn the_first_pivot_row_of_a_column_is_taken() {
    // Two rows for column 0 that contradict each other, and one for a free column.
    let pivots = vec![
        row(&[(1, 1)], &[50]),
        row(&[(0, 2), (1, 4)], &[6]),
        row(&[(0, 1), (1, 2)], &[9]),
    ];
    let is_free = [false, true];
    let mut r = row(&[(0, 1), (1, 1)], &[0]);
    eliminate_pivots(&mut r, &pivots, &is_free);
    assert_eq!(r.cols, vec![(1, 3)]);
    assert_eq!(r.rhs.as_bytes(), &[3]);
    let mut r = row(&[(0, 1), (1, 1)], &[0]);
    eliminate_pivots(&mut r, &[pivots[2].clone(), pivots[1].clone()], &is_free);
    assert_eq!(r.cols, vec![(1, 3)]);
    assert_eq!(r.rhs.as_bytes(), &[9]);
}

#[test]
fn elimination_keeps_the_solutions() {
    let pivots = vec![row(&[(0, 3), (1, 2), (2, 1)], &[0]), row(&[(1, 7), (2, 5)], &[0])];
    let is_free = [false, false, true];
    let value = |r: &SparseRow, x: &[u8; 3]| {
        let mut sum = r.rhs.as_bytes()[0];
        for &(c, v) in &r.cols {
            sum ^= mul_bytes(v, x[c as usize]);
        }
        sum
    };
    for x2 in 0..=255u8 {
        // Solve the pivot rows for the first two columns.
        let x1 = (Octet::new(mul_bytes(5, x2)) / Octet::new(7)).byte();
        let x0 = (Octet::new(mul_bytes(2, x1) ^ x2) / Octet::new(3)).byte();
        let x = [x0, x1, x2];
        assert_eq!(value(&pivots[0], &x), 0);
        assert_eq!(value(&pivots[1], &x), 0);
        let mut r = row(&[(0, 11), (1, 200), (2, 3)], &[77]);
        let before = value(&r, &x);
        eliminate_pivots(&mut r, &pivots, &is_free);
        assert_eq!(value(&r, &x), before);
    }
}

#[test]
fn primes_are_recognized() {
    let primes: Vec<u32> = (0..60).filter(|&n| is_prime_u32(n)).collect();
    assert_eq!(
        primes,
        vec![2, 3, 5, 7, 11, 13, 17, 19, 23, 29, 31, 37, 41, 43, 47, 53, 59]
    );
    assert!(is_prime_u32(65537));
    assert!(!is_prime_u32(65535));
    assert!(is_prime_u32(4294967291));
    assert!(!is_prime_u32(4294967295));
}

#[test]
fn block_parameters_are_checked() {
    let good = block(26, 80, 11, 10, 37);
    assert!(good.is_valid());
    assert_eq!(good.num_intermediate_symbols(), 47);
    assert_eq!(good.num_pi_symbols(), 10);
    assert_eq!(good.calculate_p1(), 11);
    assert_eq!(block(32, 860, 11, 10, 43).calculate_p1(), 11);
    assert_eq!(block(200, 491, 23, 10, 211).calculate_p1(), 23);
    assert!(!block(0, 80, 11, 10, 17).is_valid());
    assert!(!block(56404, 80, 907, 16, 56951).is_valid());
    assert!(!block(26, 0x1_0000, 11, 10, 37).is_valid());
    assert!(!block(26, 80, 12, 10, 37).is_valid());
    assert!(!block(26, 80, 2, 10, 23).is_valid());
    assert!(!block(26, 80, 11, 1, 31).is_valid());
    assert!(!block(26, 80, 11, 10, 36).is_valid());
    assert!(!block(26, 80, 11, 10, 11).is_valid());
    assert!(!block(26, 80, 11, 10, 47).is_valid());
    assert!(!block(26, 80, 3, 18, 37).is_valid());
    assert!(!block(26, 80, 11, 65536, 37).is_valid());
}

#[test]
fn tables_are_checked() {
    let a = block(26, 80, 11, 10, 37);
    let b = block(32, 860, 11, 10, 43);
    assert!(tables_for(vec![a, b]).is_some());
    assert!(tables_for(vec![]).is_none());
    assert!(tables_for(vec![b, a]).is_none());
    assert!(tables_for(vec![a, a]).is_none());
    assert!(tables_for(vec![block(26, 80, 11, 10, 36)]).is_none());
    let w = words();
    let short: Vec<u32> = w[2][..255].to_vec();
    assert!(CodeTables::new(
        vec![a],
        w[0].clone(),
        w[1].clone(),
        short,
        w[3].clone()
    )
    .is_none());
}

#[test]
fn the_smallest_block_that_fits_is_chosen() {
    let tables = tables();
    assert_eq!(tables.max_source_symbols(), 200);
    assert_eq!(tables.block_parameters(0).kprime, 26);
    assert_eq!(tables.block_parameters(26).kprime, 26);
    assert_eq!(tables.block_parameters(27).kprime, 32);
    assert_eq!(tables.block_parameters(33).kprime, 200);
    assert_eq!(tables.block_parameters(200).systematic_index, 491);
}

#[test]
fn generator_values() {
    let tables = tables();
    assert_eq!(rand(&tables, 0, 0, 1 << 20), 611456);
    assert_eq!(rand(&tables, 1, 6, 10), 6);
    assert_eq!(rand(&tables, 0x12345678, 2, 37), 25);
    assert_eq!(rand(&tables, 0xffffffff, 5, 11), 9);
    assert_eq!(rand(&tables, 255, 1, 36), 34);
}

#[test]
fn degrees_follow_the_distribution() {
    assert_eq!(deg(0, 100), 1);
    assert_eq!(deg(5242, 100), 1);
    assert_eq!(deg(5243, 100), 2);
    assert_eq!(deg(529530, 100), 2);
    assert_eq!(deg(529531, 100), 3);
    assert_eq!(deg(1017661, 100), 29);
    assert_eq!(deg(1017662, 100), 30);
    assert_eq!(deg(1048575, 100), 30);
    assert_eq!(deg(1048575, 19), 17);
    assert_eq!(deg(1048575, 3), 1);
}

#[test]
fn tuples_and_their_columns() {
    let tables = tables();
    let tuple = |d, a, b, d1, a1, b1| IntermediateTuple { d, a, b, d1, a1, b1 };
    let cases = [
        (0, 37, 80, 11, 10, tuple(2, 16, 16, 2, 6, 9), vec![16, 32, 46, 41]),
        (1, 37, 80, 11, 10, tuple(2, 21, 35, 3, 10, 6), vec![35, 19, 43, 42, 41]),
        (100, 37, 80, 11, 10, tuple(4, 25, 29, 2, 10, 9), vec![29, 17, 5, 30, 46, 45]),
        (
            70000,
            211,
            491,
            23,
            22,
            tuple(7, 193, 27, 2, 3, 19),
            vec![27, 9, 202, 184, 166, 148, 130, 230, 213],
        ),
    ];
    for (isi, w, j, p1, p, expected, columns) in cases {
        let found = intermediate_tuple(&tables, isi, w, j, p1);
        assert_eq!(found, expected);
        assert_eq!(enc_indices(found, w, p, p1), columns);
    }
    let params = block(26, 80, 11, 10, 37);
    assert_eq!(
        lt_row(&tables, 100, &params, 11),
        vec![(29, 1), (17, 1), (5, 1), (30, 1), (46, 1), (45, 1)]
    );
}

#[test]
fn encoding_rows_are_sparse() {
    let tables = tables();
    for k in [24u32, 32, 150] {
        let params = tables.block_parameters(k);
        let p1 = params.calculate_p1();
        for isi in 0..2000 {
            let cols = lt_row(&tables, isi, &params, p1);
            assert!(!cols.is_empty() && cols.len() <= 33);
            let mut seen: Vec<u32> = cols.iter().map(|e| e.0).collect();
            seen.sort();
            seen.dedup();
            assert_eq!(seen.len(), cols.len());
            assert!(seen[seen.len() - 1] < params.num_intermediate_symbols());
            assert!(cols.iter().all(|e| e.1 == 1));
        }
    }
}

#[test]
fn ldpc_relations() {
    let rows = ldpc_rows(&block(26, 80, 11, 10, 37));
    assert_eq!(rows.len(), 11);
    let mut first: Vec<u32> = rows[0].iter().map(|e| e.0).collect();
    first.sort();
    assert_eq!(first, vec![0, 9, 10, 11, 18, 20, 22, 26, 37, 38]);
    let mut last: Vec<u32> = rows[10].iter().map(|e| e.0).collect();
    last.sort();
    assert_eq!(last, vec![8, 9, 10, 17, 19, 21, 36, 37, 38]);
    assert!(rows.iter().flatten().all(|e| e.1 == 1));
}

#[test]
fn hdpc_relations() {
    let rows = generate_hdpc_rows(&tables(), &block(26, 80, 11, 10, 37));
    assert_eq!(rows.len(), 10);
    assert_eq!(
        rows[0],
        vec![
            123, 179, 89, 162, 81, 166, 221, 110, 55, 149, 74, 37, 156, 192, 96, 190, 95, 161, 222,
            111, 185, 210, 105, 186, 93, 160, 80, 40, 20, 132, 66, 33, 16, 8, 4, 2, 1, 1, 0, 0, 0,
            0, 0, 0, 0, 0, 0
        ]
    );
    assert_eq!(
        rows[9],
        vec![
            23, 133, 204, 102, 189, 208, 104, 52, 148, 74, 37, 156, 78, 39, 157, 192, 238, 119, 181,
            212, 106, 53, 148, 74, 37, 156, 78, 39, 157, 78, 39, 19, 135, 205, 232, 116, 58, 0, 0,
            0, 0, 0, 0, 0, 0, 0, 1
        ]
    );
    assert_eq!(nonzero_columns(&vec![0, 7, 0, 9]), vec![(1, 7), (3, 9)]);
}

#[test]
fn packets_carry_their_parts() {
    let packet = EncodingPacket::new(PayloadId::new(3, 16777215), vec![1, 2, 3]);
    assert_eq!(packet.payload_id().source_block_number(), 3);
    assert_eq!(packet.payload_id().encoding_symbol_id(), 16777215);
    assert_eq!(packet.data(), &[1, 2, 3]);
    let copy = packet.clone();
    assert_eq!(copy.payload_id, packet.payload_id);
    assert_eq!(copy.data, packet.data);
}

#[test]
fn partitions_are_nearly_equal() {
    assert_eq!(partition(10, 3), (4, 3, 1, 2));
    assert_eq!(partition(9, 3), (3, 3, 0, 3));
    assert_eq!(partition(2, 5), (1, 0, 2, 3));
    assert_eq!(partition(0, 4), (0, 0, 0, 4));
    assert_eq!(partition(u32::MAX, 1), (u32::MAX, u32::MAX, 0, 1));
    for i in 0..50u32 {
        for j in 1..12u16 {
            let (il, is, jl, js) = partition(i, j);
            assert_eq!(jl * il + js * is, i);
            assert_eq!(jl + js, j as u32);
        }
    }
}

#[test]
fn blocks_are_assembled_by_sub_blocks() {
    let symbols = [Symbol::new(vec![1, 2, 3, 4, 5]), Symbol::new(vec![6, 7, 8, 9, 10])];
    assert_eq!(assemble_block(&symbols, 5, 1, 1), vec![1, 2, 3, 4, 5, 6, 7, 8, 9, 10]);
    assert_eq!(assemble_block(&symbols, 5, 2, 1), vec![1, 2, 3, 6, 7, 8, 4, 5, 9, 10]);
    assert_eq!(assemble_block(&symbols, 5, 2, 2), vec![1, 2, 6, 7, 3, 4, 8, 9, 0, 0]);
    assert_eq!(assemble_block(&symbols, 5, 1, 6), vec![0; 10]);
    assert_eq!(assemble_block(&[], 5, 1, 1), Vec::<u8>::new());
}
