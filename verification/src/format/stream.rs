//! Length-prefixed stream records:
//! `[total_bytes: u32][seq_len: u16][token_ids...][turn_ids...][category_ids...][outcome: u8]`.

use vstd::prelude::*;
use vstd::bytes::*;

use crate::format::somabin::{encode_record, lemma_record_len, record_bytes, seq_len_field};
use crate::game::TokenizedGame;

verus! {

/// The length prefix: `2 + 2*seq_len + seq_len + seq_len + 1`, from the
/// (16-bit) `seq_len` field.
pub open spec fn stream_length(token_count: nat) -> u32 {
    let n = seq_len_field(token_count) as int;
    (2 + 2 * n + n + n + 1) as u32
}

/// The bytes of the stream record of `game`.
pub open spec fn stream_record(game: TokenizedGame) -> Seq<u8> {
    spec_u32_to_le_bytes(stream_length(game.token_ids@.len())) + game.record()
}

/// Appends the stream record of `game` to `writer`.
pub fn write_stream_record(writer: &mut Vec<u8>, game: &TokenizedGame)
    ensures
        final(writer)@ == old(writer)@ + stream_record(*game),
{
    let seq_len = (game.token_ids.len() % 0x10000) as u16;
    let record_bytes: u32 = 2 + (2 * seq_len as u32) + (seq_len as u32) + (seq_len as u32) + 1;
    let mut prefix = u32_to_le_bytes(record_bytes);
    writer.append(&mut prefix);
    let mut rec = encode_record(game);
    writer.append(&mut rec);
    assert(writer@ =~= old(writer)@ + stream_record(*game));
}

/// When a game's three sequences have the same length, below 65536, the
/// length prefix of its stream record counts exactly the bytes that follow it.
pub proof fn law_stream_record_self_delimiting(game: TokenizedGame)
    requires
        game.token_ids@.len() < 0x10000,
        game.turn_ids@.len() == game.token_ids@.len(),
        game.category_ids@.len() == game.token_ids@.len(),
    ensures
        stream_record(game).len() == 4 + stream_length(game.token_ids@.len()),
        spec_u32_from_le_bytes(stream_record(game).take(4)) == stream_length(
            game.token_ids@.len(),
        ),
{
    lemma_auto_spec_u32_to_from_le_bytes();
    lemma_record_len(game.token_ids@, game.turn_ids@, game.category_ids@, game.outcome);
    let p = spec_u32_to_le_bytes(stream_length(game.token_ids@.len()));
    assert(stream_record(game).take(4) =~= p);
}

} // verus!
