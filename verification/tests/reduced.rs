use raptorq_reduced::base::{partition, EncodingPacket, PayloadId};
use raptorq_reduced::constraint_matrix::{generate_hdpc_rows, ldpc_rows, lt_row};
use raptorq_reduced::octet::mul_bytes;
use raptorq_reduced::reduced::{try_reduced_decode, REDUCED_LOST_THRESHOLD, REDUCED_MIN_SYMBOLS};
use raptorq_reduced::symbol::Symbol;
use raptorq_reduced::systematic_constants::{BlockParameters, CodeTables};

struct Lcg {
    state: u64,
}

impl Lcg {
    fn next(&mut self) -> u32 {
        self.state = self
            .state
            .wrapping_mul(6364136223846793005)
            .wrapping_add(1442695040888963407);
        (self.state >> 32) as u32
    }

    fn bytes(&mut self, count: usize) -> Vec<u8> {
        (0..count).map(|_| (self.next() >> 24) as u8).collect()
    }
}

fn block(kprime: u32, systematic_index: u32, ldpc: u32, hdpc: u32, lt: u32) -> BlockParameters {
    BlockParameters {
        kprime,
        systematic_index,
        ldpc_symbols: ldpc,
        hdpc_symbols: hdpc,
        lt_symbols: lt,
    }
}

fn tables() -> CodeTables {
    let blocks = vec![
        block(26, 80, 11, 10, 37),
        block(32, 860, 11, 10, 43),
        block(42, 822, 11, 10, 53),
        block(69, 157, 13, 10, 79),
        block(101, 562, 17, 10, 113),
        block(200, 491, 23, 10, 211),
    ];
    let mut lcg = Lcg { state: 1 };
    let mut words: Vec<Vec<u32>> = Vec::new();
    for _ in 0..4 {
        words.push((0..256).map(|_| lcg.next()).collect());
    }
    let v3 = words.pop().unwrap();
    let v2 = words.pop().unwrap();
    let v1 = words.pop().unwrap();
    let v0 = words.pop().unwrap();
    CodeTables::new(blocks, v0, v1, v2, v3).unwrap()
}

/// Solves for the intermediate symbols of a block and encodes from them.
struct Encoder {
    tables: CodeTables,
    params: BlockParameters,
    p1: u32,
    k: u32,
    symbol_size: usize,
    source: Vec<Vec<u8>>,
    intermediate: Vec<Vec<u8>>,
}

fn add_scaled(target: &mut [u8], other: &[u8], table: &[u8]) {
    for (t, o) in target.iter_mut().zip(other.iter()) {
        *t ^= table[*o as usize];
    }
}

fn scale(target: &mut [u8], table: &[u8]) {
    for t in target.iter_mut() {
        *t = table[*t as usize];
    }
}

impl Encoder {
    fn new(k: u32, symbol_size: usize, data: &[u8]) -> Encoder {
        let tables = tables();
        let params = tables.block_parameters(k);
        let p1 = params.calculate_p1();
        let total = params.num_intermediate_symbols() as usize;
        let products: Vec<Vec<u8>> = (0..=255u8)
            .map(|a| (0..=255u8).map(|b| mul_bytes(a, b)).collect())
            .collect();
        let source: Vec<Vec<u8>> = data.chunks(symbol_size).map(|c| c.to_vec()).collect();
        assert_eq!(source.len(), k as usize);

        // One row per equation: the coefficients, then the right-hand side.
        let mut rows: Vec<Vec<u8>> = Vec::new();
        for i in 0..params.kprime {
            let mut row = vec![0u8; total + symbol_size];
            for (col, coef) in lt_row(&tables, i, &params, p1) {
                row[col as usize] ^= coef;
            }
            if i < k {
                row[total..].copy_from_slice(&source[i as usize]);
            }
            rows.push(row);
        }
        for cols in ldpc_rows(&params) {
            let mut row = vec![0u8; total + symbol_size];
            for (col, coef) in cols {
                row[col as usize] ^= coef;
            }
            rows.push(row);
        }
        for coefs in generate_hdpc_rows(&tables, &params) {
            let mut row = coefs.clone();
            row.resize(total + symbol_size, 0);
            rows.push(row);
        }
        assert_eq!(rows.len(), total);

        for c in 0..total {
            let pivot = (c..total).find(|&r| rows[r][c] != 0).unwrap();
            rows.swap(c, pivot);
            let inverse = (1..=255u8)
                .find(|&x| products[x as usize][rows[c][c] as usize] == 1)
                .unwrap();
            scale(&mut rows[c], &products[inverse as usize]);
            let row = rows[c].clone();
            for r in 0..total {
                if r != c && rows[r][c] != 0 {
                    let factor = rows[r][c];
                    add_scaled(&mut rows[r], &row, &products[factor as usize]);
                }
            }
        }
        let intermediate = rows.iter().map(|row| row[total..].to_vec()).collect();
        Encoder {
            tables,
            params,
            p1,
            k,
            symbol_size,
            source,
            intermediate,
        }
    }

    fn encode(&self, internal_symbol_id: u32) -> Vec<u8> {
        let mut symbol = vec![0u8; self.symbol_size];
        for (col, coef) in lt_row(&self.tables, internal_symbol_id, &self.params, self.p1) {
            assert_eq!(coef, 1);
            for (t, x) in symbol.iter_mut().zip(self.intermediate[col as usize].iter()) {
                *t ^= *x;
            }
        }
        symbol
    }

    fn source_packets(&self) -> Vec<EncodingPacket> {
        (0..self.k)
            .map(|i| EncodingPacket::new(PayloadId::new(1, i), self.source[i as usize].clone()))
            .collect()
    }

    fn repair_packets(&self, start: u32, count: u32) -> Vec<EncodingPacket> {
        let padding = self.params.kprime - self.k;
        (start..start + count)
            .map(|i| {
                let esi = self.k + i;
                EncodingPacket::new(PayloadId::new(1, esi), self.encode(esi + padding))
            })
            .collect()
    }

    /// The source symbols without those at the given positions.
    fn sources_without(&self, dropped: &[u32]) -> Vec<Option<Symbol>> {
        (0..self.k)
            .map(|i| {
                if dropped.contains(&i) {
                    None
                } else {
                    Some(Symbol::new(self.source[i as usize].clone()))
                }
            })
            .collect()
    }
}

#[test]
fn reduced_matches_standard_for_random_erasures() {
    let symbol_size: u16 = 1350;
    let mut lcg = Lcg { state: 77 };
    for &k in &[24u16, 32, 40, 64, 100, 200] {
        for &lost in &[1u32, 2, 4, 8] {
            if lost as u16 >= k {
                continue;
            }
            let data: Vec<u8> = lcg.bytes(symbol_size as usize * k as usize);
            let encoder = Encoder::new(k as u32, symbol_size as usize, &data);

            let source_packets: Vec<EncodingPacket> = encoder.source_packets();
            let repair_packets: Vec<EncodingPacket> = encoder.repair_packets(0, 64);

            // Drop `lost` source symbols at scattered positions.
            let mut dropped: Vec<u32> = vec![];
            let mut step = k / (lost as u16 + 1);
            if step == 0 {
                step = 1;
            }
            let mut pos = step;
            while (dropped.len() as u32) < lost && pos < k {
                dropped.push(pos as u32);
                pos += step;
            }
            while (dropped.len() as u32) < lost {
                dropped.push(0);
            }

            let mut sources: Vec<Option<Symbol>> = vec![None; k as usize];
            let mut repairs: Vec<EncodingPacket> = vec![];
            for (i, p) in source_packets.iter().enumerate() {
                if dropped.contains(&(i as u32)) {
                    continue;
                }
                sources[i] = Some(Symbol::new(p.data().to_vec()));
            }
            repairs.extend(repair_packets.iter().take(lost as usize + 2).cloned());

            let fast = try_reduced_decode(
                &encoder.tables,
                k as u32,
                symbol_size,
                1,
                1,
                &sources,
                &repairs,
            );
            assert!(
                fast.is_some(),
                "reduced decode failed for k={k} lost={lost}"
            );

            let fast_out = fast.unwrap();
            assert_eq!(
                fast_out,
                data.as_slice(),
                "reduced decode output mismatch for k={k} lost={lost}"
            );
        }
    }
}

#[test]
fn reduced_rejects_too_many_lost() {
    let symbol_size: u16 = 64;
    let k: u16 = 32;
    let data: Vec<u8> = vec![7; symbol_size as usize * k as usize];
    let encoder = Encoder::new(k as u32, symbol_size as usize, &data);
    let source_packets: Vec<EncodingPacket> = encoder.source_packets();
    let repair_packets: Vec<EncodingPacket> = encoder.repair_packets(0, 64);

    // Drop 20 > REDUCED_LOST_THRESHOLD symbols.
    let mut sources: Vec<Option<Symbol>> = vec![None; k as usize];
    for (i, p) in source_packets.iter().enumerate().take(k as usize - 20) {
        sources[i] = Some(Symbol::new(p.data().to_vec()));
    }
    assert!(try_reduced_decode(
        &encoder.tables,
        k as u32,
        symbol_size,
        1,
        1,
        &sources,
        &repair_packets[..20],
    )
    .is_none());
}

#[test]
fn reduced_requires_repair_symbols() {
    let symbol_size: u16 = 64;
    let k: u16 = 32;
    let data: Vec<u8> = vec![3; symbol_size as usize * k as usize];
    let encoder = Encoder::new(k as u32, symbol_size as usize, &data);
    let source_packets: Vec<EncodingPacket> = encoder.source_packets();

    let mut sources: Vec<Option<Symbol>> = vec![None; k as usize];
    for (i, p) in source_packets.iter().enumerate().take(k as usize - 1) {
        sources[i] = Some(Symbol::new(p.data().to_vec()));
    }
    // One lost symbol but zero repair packets: fast path must bail out.
    assert!(
        try_reduced_decode(&encoder.tables, k as u32, symbol_size, 1, 1, &sources, &[]).is_none()
    );
}

#[test]
fn limits_of_the_reduced_decoding() {
    assert_eq!(REDUCED_LOST_THRESHOLD, 16);
    assert_eq!(REDUCED_MIN_SYMBOLS, 24);
}

#[test]
fn recovers_the_largest_number_of_lost_symbols() {
    let mut lcg = Lcg { state: 5 };
    for &k in &[24u32, 64] {
        let data = lcg.bytes(k as usize * 20);
        let encoder = Encoder::new(k, 20, &data);
        let step = k / 17;
        let dropped: Vec<u32> = (1..=16).map(|i| i * step).collect();
        let sources = encoder.sources_without(&dropped);
        let repairs = encoder.repair_packets(0, 16);
        let block = try_reduced_decode(&encoder.tables, k, 20, 1, 1, &sources, &repairs);
        assert_eq!(block, Some(data));
    }
}

#[test]
fn one_symbol_over_the_threshold_is_refused() {
    let data = Lcg { state: 6 }.bytes(64 * 8);
    let encoder = Encoder::new(64, 8, &data);
    let dropped: Vec<u32> = (0..17).collect();
    let sources = encoder.sources_without(&dropped);
    let repairs = encoder.repair_packets(0, 30);
    assert!(try_reduced_decode(&encoder.tables, 64, 8, 1, 1, &sources, &repairs).is_none());
}

#[test]
fn a_complete_block_is_refused() {
    let data = Lcg { state: 7 }.bytes(24 * 8);
    let encoder = Encoder::new(24, 8, &data);
    let sources = encoder.sources_without(&[]);
    let repairs = encoder.repair_packets(0, 4);
    assert!(try_reduced_decode(&encoder.tables, 24, 8, 1, 1, &sources, &repairs).is_none());
}

#[test]
fn a_small_block_is_refused() {
    let data = Lcg { state: 8 }.bytes(23 * 8);
    let encoder = Encoder::new(23, 8, &data);
    let sources = encoder.sources_without(&[4]);
    let repairs = encoder.repair_packets(0, 4);
    assert!(try_reduced_decode(&encoder.tables, 23, 8, 1, 1, &sources, &repairs).is_none());
}

#[test]
fn fewer_repairs_than_lost_symbols_are_refused() {
    let data = Lcg { state: 9 }.bytes(32 * 8);
    let encoder = Encoder::new(32, 8, &data);
    let sources = encoder.sources_without(&[3, 9, 20]);
    let repairs = encoder.repair_packets(0, 3);
    assert!(try_reduced_decode(&encoder.tables, 32, 8, 1, 1, &sources, &repairs[..2]).is_none());
    let block = try_reduced_decode(&encoder.tables, 32, 8, 1, 1, &sources, &repairs);
    assert_eq!(block, Some(data));
}

#[test]
fn a_repair_symbol_that_adds_nothing_is_refused() {
    let data = Lcg { state: 10 }.bytes(24 * 8);
    let encoder = Encoder::new(24, 8, &data);
    // Repair symbol 9 does not depend on source symbol 5; repair symbol 8 does.
    let sources = encoder.sources_without(&[5]);
    let repairs = encoder.repair_packets(8, 2);
    let singular = [repairs[1].clone()];
    assert!(try_reduced_decode(&encoder.tables, 24, 8, 1, 1, &sources, &singular).is_none());
    let regular = [repairs[0].clone()];
    let block = try_reduced_decode(&encoder.tables, 24, 8, 1, 1, &sources, &regular);
    assert_eq!(block, Some(data));
}

#[test]
fn the_same_repair_symbol_twice_is_refused() {
    let data = Lcg { state: 11 }.bytes(40 * 8);
    let encoder = Encoder::new(40, 8, &data);
    let sources = encoder.sources_without(&[3, 30]);
    let repairs = encoder.repair_packets(0, 1);
    let twice = [repairs[0].clone(), repairs[0].clone()];
    assert!(try_reduced_decode(&encoder.tables, 40, 8, 1, 1, &sources, &twice).is_none());
}

#[test]
fn only_the_first_repair_symbols_count() {
    let data = Lcg { state: 12 }.bytes(40 * 8);
    let encoder = Encoder::new(40, 8, &data);
    let sources = encoder.sources_without(&[3, 30]);
    let mut repairs = encoder.repair_packets(0, 2);
    let expected = try_reduced_decode(&encoder.tables, 40, 8, 1, 1, &sources, &repairs);
    assert_eq!(expected, Some(data));
    // A third packet with other bytes makes no difference.
    repairs.push(EncodingPacket::new(PayloadId::new(1, 99), vec![0xee; 8]));
    let block = try_reduced_decode(&encoder.tables, 40, 8, 1, 1, &sources, &repairs);
    assert_eq!(block, expected);
    // Nor does a later packet help where the first ones are not enough.
    let singular = [repairs[0].clone(), repairs[0].clone(), repairs[1].clone()];
    assert!(try_reduced_decode(&encoder.tables, 40, 8, 1, 1, &sources, &singular).is_none());
}

#[test]
fn received_symbols_are_kept_as_they_are() {
    let data = Lcg { state: 13 }.bytes(32 * 8);
    let encoder = Encoder::new(32, 8, &data);
    let mut sources = encoder.sources_without(&[7]);
    // A symbol with wrong bytes spoils what is rebuilt, but is itself handed on.
    sources[12] = Some(Symbol::new(vec![0xa5; 8]));
    let repairs = encoder.repair_packets(0, 1);
    let block = try_reduced_decode(&encoder.tables, 32, 8, 1, 1, &sources, &repairs).unwrap();
    assert_eq!(block.len(), data.len());
    for i in 0..32usize {
        let symbol = &block[i * 8..(i + 1) * 8];
        if i == 12 {
            assert_eq!(symbol, &[0xa5u8; 8]);
        } else if i != 7 {
            assert_eq!(symbol, &data[i * 8..(i + 1) * 8]);
        }
    }
}

#[test]
fn success_depends_on_arrivals_alone() {
    let first = Encoder::new(24, 8, &Lcg { state: 14 }.bytes(24 * 8));
    let second = Encoder::new(24, 8, &[0u8; 24 * 8]);
    for start in 0..20u32 {
        let a = try_reduced_decode(
            &first.tables,
            24,
            8,
            1,
            1,
            &first.sources_without(&[10]),
            &first.repair_packets(start, 1),
        );
        let b = try_reduced_decode(
            &second.tables,
            24,
            8,
            1,
            1,
            &second.sources_without(&[10]),
            &second.repair_packets(start, 1),
        );
        assert_eq!(a.is_some(), b.is_some());
        // Repair symbol 2 alone says nothing of source symbol 10.
        assert_eq!(a.is_some(), start != 2);
    }
}

#[test]
fn a_surplus_symbol_over_determines_the_block() {
    let data = Lcg { state: 15 }.bytes(32 * 8);
    let encoder = Encoder::new(32, 8, &data);
    let repairs = encoder.repair_packets(0, 3);
    // A further symbol behind the block leaves fewer unknowns than symbols are lost.
    let mut sources = encoder.sources_without(&[7]);
    sources.push(Some(Symbol::new(repairs[0].data().to_vec())));
    assert!(try_reduced_decode(&encoder.tables, 32, 8, 1, 1, &sources, &repairs[1..]).is_none());
    // A further gap counts as a lost symbol that no unknown stands for.
    let mut sources = encoder.sources_without(&[7]);
    sources.push(None);
    assert!(try_reduced_decode(&encoder.tables, 32, 8, 1, 1, &sources, &repairs).is_none());
}

#[test]
fn a_surplus_padding_symbol_changes_nothing() {
    let data = Lcg { state: 16 }.bytes(24 * 8);
    let encoder = Encoder::new(24, 8, &data);
    let repairs = encoder.repair_packets(0, 1);
    let mut sources = encoder.sources_without(&[7]);
    sources.push(Some(Symbol::zero(8)));
    let block = try_reduced_decode(&encoder.tables, 24, 8, 1, 1, &sources, &repairs);
    assert_eq!(block, Some(data));
}

#[test]
fn too_short_a_list_of_sources_is_refused() {
    let data = Lcg { state: 17 }.bytes(32 * 8);
    let encoder = Encoder::new(32, 8, &data);
    let repairs = encoder.repair_packets(0, 4);
    let sources = encoder.sources_without(&[7]);
    assert!(try_reduced_decode(&encoder.tables, 32, 8, 1, 1, &sources[..31], &repairs).is_none());
}

#[test]
fn sub_blocks_hold_their_parts_of_all_symbols() {
    // Seven units of four bytes in three sub-blocks, and two bytes left over.
    let symbol_size: usize = 30;
    let k: usize = 24;
    let data = Lcg { state: 18 }.bytes(k * symbol_size);
    let encoder = Encoder::new(k as u32, symbol_size, &data);
    let sources = encoder.sources_without(&[2, 20]);
    let repairs = encoder.repair_packets(0, 2);
    let block = try_reduced_decode(
        &encoder.tables,
        k as u32,
        symbol_size as u16,
        3,
        4,
        &sources,
        &repairs,
    )
    .unwrap();

    let (tl, ts, nl, ns) = partition(7, 3);
    assert_eq!((tl, ts, nl, ns), (3, 2, 1, 2));
    let mut expected = vec![0u8; k * symbol_size];
    let mut symbol_offset = 0;
    let mut sub_block_offset = 0;
    for sub_block in 0..nl + ns {
        let bytes = if sub_block < nl { tl } else { ts } as usize * 4;
        for i in 0..k {
            let start = sub_block_offset + bytes * i;
            let from = i * symbol_size + symbol_offset;
            expected[start..start + bytes].copy_from_slice(&data[from..from + bytes]);
        }
        symbol_offset += bytes;
        sub_block_offset += bytes * k;
    }
    assert_eq!(block, expected);
    assert_eq!(&block[k * 28..], &vec![0u8; k * 2][..]);
}

#[test]
fn symbols_without_bytes_give_an_empty_block() {
    let encoder = Encoder::new(24, 8, &[1u8; 24 * 8]);
    let sources: Vec<Option<Symbol>> = (0..24)
        .map(|i| if i == 3 { None } else { Some(Symbol::zero(0)) })
        .collect();
    let repairs = [EncodingPacket::new(PayloadId::new(1, 24), Vec::new())];
    let block = try_reduced_decode(&encoder.tables, 24, 0, 1, 1, &sources, &repairs);
    assert_eq!(block, Some(Vec::new()));
}

/// The number of independent rows.
fn rank(rows: Vec<Vec<u8>>) -> usize {
    let mut pivots: Vec<(usize, Vec<u8>)> = Vec::new();
    for mut row in rows {
        for (lead, pivot) in &pivots {
            let factor = row[*lead];
            if factor != 0 {
                for (t, x) in row.iter_mut().zip(pivot.iter()) {
                    *t ^= mul_bytes(factor, *x);
                }
            }
        }
        if let Some(lead) = row.iter().position(|&x| x != 0) {
            let inverse = (1..=255u8).find(|&x| mul_bytes(x, row[lead]) == 1).unwrap();
            for t in row.iter_mut() {
                *t = mul_bytes(inverse, *t);
            }
            pivots.push((lead, row));
        }
    }
    pivots.len()
}

#[test]
fn a_block_is_decoded_exactly_where_it_is_determined() {
    let data = Lcg { state: 19 }.bytes(24 * 4);
    let encoder = Encoder::new(24, 4, &data);
    let params = encoder.params;
    let total = params.num_intermediate_symbols() as usize;
    let dense = |cols: Vec<(u32, u8)>| {
        let mut row = vec![0u8; total];
        for (col, coef) in cols {
            row[col as usize] ^= coef;
        }
        row
    };
    let mut refused = 0;
    for r in 0..10u32 {
        let repairs = encoder.repair_packets(r, 1);
        for dropped in 0..24u32 {
            let mut rows: Vec<Vec<u8>> = Vec::new();
            for i in (0..params.kprime).filter(|&i| i != dropped) {
                rows.push(dense(lt_row(&encoder.tables, i, &params, encoder.p1)));
            }
            rows.extend(ldpc_rows(&params).into_iter().map(&dense));
            rows.extend(generate_hdpc_rows(&encoder.tables, &params));
            assert_eq!(rows.len(), total - 1);
            let isi = 24 + r + (params.kprime - 24);
            rows.push(dense(lt_row(&encoder.tables, isi, &params, encoder.p1)));
            let sources = encoder.sources_without(&[dropped]);
            let block = try_reduced_decode(&encoder.tables, 24, 4, 1, 1, &sources, &repairs);
            if rank(rows) == total {
                assert_eq!(block, Some(data.clone()));
            } else {
                assert_eq!(block, None);
                refused += 1;
            }
        }
    }
    assert_eq!(refused, 2);
}

#[test]
fn the_order_of_repair_symbols_does_not_matter() {
    let data = Lcg { state: 20 }.bytes(64 * 6);
    let encoder = Encoder::new(64, 6, &data);
    let sources = encoder.sources_without(&[1, 17, 40, 63]);
    let mut repairs = encoder.repair_packets(2, 4);
    for _ in 0..4 {
        let block = try_reduced_decode(&encoder.tables, 64, 6, 1, 1, &sources, &repairs);
        assert_eq!(block.as_ref(), Some(&data));
        repairs.rotate_left(1);
    }
}

#[test]
fn decoding_is_linear() {
    let mut lcg = Lcg { state: 21 };
    let (k, size) = (40usize, 6usize);
    let first = lcg.bytes(k * size);
    let second = lcg.bytes(k * size);
    for &scalar in &[0u8, 1, 2, 0x53, 0xff] {
        let sum: Vec<u8> = first
            .iter()
            .zip(second.iter())
            .map(|(a, b)| a ^ mul_bytes(scalar, *b))
            .collect();
        let mut blocks: Vec<Vec<u8>> = Vec::new();
        let mut sent: Vec<Vec<u8>> = Vec::new();
        for data in [&first, &second, &sum] {
            let encoder = Encoder::new(k as u32, size, data);
            let repairs = encoder.repair_packets(0, 2);
            sent.push(repairs[0].data().to_vec());
            let sources = encoder.sources_without(&[11, 12]);
            let tables = &encoder.tables;
            let block =
                try_reduced_decode(tables, k as u32, size as u16, 2, 2, &sources, &repairs);
            blocks.push(block.unwrap());
        }
        for t in 0..k * size {
            assert_eq!(blocks[2][t], blocks[0][t] ^ mul_bytes(scalar, blocks[1][t]));
        }
        for t in 0..size {
            assert_eq!(sent[2][t], sent[0][t] ^ mul_bytes(scalar, sent[1][t]));
        }
    }
}
