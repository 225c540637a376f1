use ailed_soulsteal::format::somabin::{game_type_name, read_info, SomabinError, SomabinWriter};
use ailed_soulsteal::format::stream::write_stream_record;
use ailed_soulsteal::game::TokenizedGame;

fn game(tokens: &[u16], outcome: u8) -> TokenizedGame {
    let n = tokens.len();
    TokenizedGame {
        token_ids: tokens.to_vec(),
        turn_ids: (0..n).map(|i| (i % 2) as u8).collect(),
        category_ids: vec![1; n],
        outcome,
    }
}

/// Builds the file the way the caller of `SomabinWriter` writes it: header,
/// index, then the records as the data section. Also returns each record's
/// offset in the data section.
fn write_file(games: &[TokenizedGame]) -> (Vec<u8>, Vec<u64>) {
    let mut w = SomabinWriter::new(0, 4214, 6, 6);
    w.begin(0);
    let mut data = Vec::new();
    let mut offsets = Vec::new();
    for g in games {
        offsets.push(data.len() as u64);
        let bytes = w.write_game(g);
        data.extend_from_slice(&bytes);
    }
    let tail = w.finalize();
    let mut file = tail.header.clone();
    file.extend_from_slice(&tail.index);
    file.extend_from_slice(&data);
    (file, offsets)
}

#[test]
fn record_layout_is_little_endian() {
    let (file, offsets) = write_file(&[game(&[1, 0x0102, 2], 0)]);
    assert_eq!(offsets, vec![0]);
    let data_start = 64 + 8;
    let rec = &file[data_start..data_start + 2 + 6 + 3 + 3 + 1];
    assert_eq!(rec, &[3, 0, 1, 0, 2, 1, 2, 0, 0, 1, 0, 1, 1, 1, 0]);
}

#[test]
fn header_reads_back() {
    let games = [game(&[1, 7, 2], 0), game(&[1, 8, 9, 10, 2], 2)];
    let (file, _) = write_file(&games);
    let info = match read_info(&file) {
        Ok(i) => i,
        Err(_) => panic!("header should read"),
    };
    assert_eq!(info.version, 1);
    assert_eq!(info.game_type, 0);
    assert_eq!(info.vocab_size, 4214);
    assert_eq!(info.num_games, 2);
    assert_eq!(info.max_seq_len, 5);
    assert_eq!(info.special_offset, 6);
    assert_eq!(info.category_dims, 6);
    assert_eq!(info.index_offset, 64);
    let rec0 = 2 + 6 + 3 + 3 + 1;
    let rec1 = 2 + 10 + 5 + 5 + 1;
    assert_eq!(info.file_size, (64 + 16 + rec0 + rec1) as u64);
    assert_eq!(file.len() as u64, info.file_size);
    assert!(file[24..64].iter().all(|&b| b == 0));
}

#[test]
fn index_points_at_records() {
    let games = [game(&[1, 7, 2], 0), game(&[1, 8, 9, 10, 2], 2)];
    let (file, offsets) = write_file(&games);
    assert_eq!(offsets, vec![0, 15]);
    let data_start = 64 + 8 * games.len();
    for (i, off) in offsets.iter().enumerate() {
        let at = 64 + 8 * i;
        let mut b = [0u8; 8];
        b.copy_from_slice(&file[at..at + 8]);
        assert_eq!(u64::from_le_bytes(b), *off);
        let start = data_start + *off as usize;
        let seq_len = u16::from_le_bytes([file[start], file[start + 1]]) as usize;
        assert_eq!(seq_len, games[i].token_ids.len());
        let outcome = file[start + 2 + 4 * seq_len];
        assert_eq!(outcome, games[i].outcome);
    }
}

#[test]
fn empty_file_header() {
    let (file, _) = write_file(&[]);
    assert_eq!(file.len(), 64);
    assert_eq!(&file[0..4], b"SOMA");
    let info = match read_info(&file) {
        Ok(i) => i,
        Err(_) => panic!("header should read"),
    };
    assert_eq!(info.num_games, 0);
    assert_eq!(info.max_seq_len, 0);
    assert_eq!(info.index_offset, 64);
    assert!(file[24..64].iter().all(|&b| b == 0));
}

#[test]
fn read_info_rejects_short_file() {
    let data = vec![0u8; 63];
    assert!(matches!(read_info(&data), Err(SomabinError::TooSmall)));
}

#[test]
fn read_info_rejects_bad_magic() {
    let mut data = vec![0u8; 64];
    data[0..4].copy_from_slice(b"SOMB");
    assert!(matches!(read_info(&data), Err(SomabinError::BadMagic)));
}

#[test]
fn game_type_names() {
    assert_eq!(game_type_name(0), "chess");
    assert_eq!(game_type_name(1), "go");
    assert_eq!(game_type_name(2), "shogi");
    assert_eq!(game_type_name(3), "unknown");
}

#[test]
fn stream_record_prefix_counts_bytes() {
    let g = game(&[1, 300, 2], 255);
    let mut out = Vec::new();
    write_stream_record(&mut out, &g);
    let total = u32::from_le_bytes([out[0], out[1], out[2], out[3]]) as usize;
    assert_eq!(total, 2 + 2 * 3 + 3 + 3 + 1);
    assert_eq!(out.len(), 4 + total);
    assert_eq!(&out[4..6], &[3, 0]);
    assert_eq!(&out[6..12], &[1, 0, 44, 1, 2, 0]);
    assert_eq!(*out.last().unwrap(), 255);
}

#[test]
fn stream_records_append() {
    let mut out = Vec::new();
    write_stream_record(&mut out, &game(&[1, 2], 1));
    write_stream_record(&mut out, &game(&[1, 5, 2], 2));
    assert_eq!(out.len(), (4 + 11) + (4 + 15));
    assert_eq!(out[4 + 11], 15);
}

#[test]
fn seq_len_is_truncated_to_16_bits() {
    let tokens = vec![7u16; 65537];
    let g = game(&tokens, 0);
    let mut out = Vec::new();
    write_stream_record(&mut out, &g);
    assert_eq!(&out[4..6], &[1, 0]);
    let total = u32::from_le_bytes([out[0], out[1], out[2], out[3]]);
    assert_eq!(total, 2 + 2 + 1 + 1 + 1);
}
