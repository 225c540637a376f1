//! The `.somabin` binary format: a 64-byte header, an index table of one
//! offset per game, and the data section of one record per game. Each index
//! entry is the offset of its record from the start of the data section.
//!
//! `SomabinWriter` decides every byte of the file. The records it hands back
//! make the data section, in order; `finalize` hands back the header and the
//! index, which precede the data section in the file.

use vstd::prelude::*;
use vstd::bytes::*;
use vstd::slice::slice_subrange;

use crate::game::TokenizedGame;

verus! {

pub const FORMAT_VERSION: u16 = 1;

pub const HEADER_SIZE: u64 = 64;

/// The magic bytes `b"SOMA"`.
pub open spec fn magic() -> Seq<u8> {
    seq![0x53u8, 0x4Fu8, 0x4Du8, 0x41u8]
}

/// Little-endian bytes of each token id, in order.
pub open spec fn tokens_le(ts: Seq<u16>) -> Seq<u8>
    decreases ts.len(),
{
    if ts.len() == 0 {
        seq![]
    } else {
        tokens_le(ts.drop_last()) + spec_u16_to_le_bytes(ts.last())
    }
}

/// Little-endian bytes of each offset, in order: the index table.
pub open spec fn index_le(offs: Seq<u64>) -> Seq<u8>
    decreases offs.len(),
{
    if offs.len() == 0 {
        seq![]
    } else {
        index_le(offs.drop_last()) + spec_u64_to_le_bytes(offs.last())
    }
}

/// The `seq_len` field of a record: the token count truncated to 16 bits.
pub open spec fn seq_len_field(n: nat) -> u16 {
    (n % 0x10000) as u16
}

/// The bytes of one game record:
/// `[seq_len: u16][token_ids: u16 each][turn_ids][category_ids][outcome]`.
pub open spec fn record_bytes(tokens: Seq<u16>, turns: Seq<u8>, cats: Seq<u8>, outcome: u8) -> Seq<
    u8,
> {
    spec_u16_to_le_bytes(seq_len_field(tokens.len())) + tokens_le(tokens) + turns + cats + seq![
        outcome,
    ]
}

impl TokenizedGame {
    /// This game's record bytes.
    pub open spec fn record(&self) -> Seq<u8> {
        record_bytes(self.token_ids@, self.turn_ids@, self.category_ids@, self.outcome)
    }
}

/// The largest `seq_len` field among `lens`, or 0.
pub open spec fn max_len(lens: Seq<u16>) -> u32
    decreases lens.len(),
{
    if lens.len() == 0 {
        0
    } else {
        let m = max_len(lens.drop_last());
        if lens.last() as u32 > m {
            lens.last() as u32
        } else {
            m
        }
    }
}

/// The 64 header bytes; bytes 24 to 64 are reserved and zero.
pub open spec fn header_bytes(
    version: u16,
    game_type: u16,
    vocab_size: u32,
    num_games: u32,
    max_seq_len: u32,
    special_offset: u16,
    category_dims: u16,
) -> Seq<u8> {
    magic() + spec_u16_to_le_bytes(version) + spec_u16_to_le_bytes(game_type)
        + spec_u32_to_le_bytes(vocab_size) + spec_u32_to_le_bytes(num_games)
        + spec_u32_to_le_bytes(max_seq_len) + spec_u16_to_le_bytes(special_offset)
        + spec_u16_to_le_bytes(category_dims) + Seq::new(40, |i: int| 0u8)
}

/// Header fields of a `.somabin` file, with where its index starts (right
/// after the header) and the file's size.
pub struct SomabinInfo {
    pub version: u16,
    pub game_type: u16,
    pub vocab_size: u32,
    pub num_games: u32,
    pub max_seq_len: u32,
    pub special_offset: u16,
    pub category_dims: u16,
    pub index_offset: u64,
    pub file_size: u64,
}

/// Why a byte string is not a `.somabin` file.
pub enum SomabinError {
    /// Fewer than 64 bytes.
    TooSmall,
    /// The first four bytes are not `SOMA`.
    BadMagic,
}

/// The header fields as they stand in `data` (at least 64 bytes).
pub open spec fn decode_info(data: Seq<u8>) -> SomabinInfo {
    SomabinInfo {
        version: spec_u16_from_le_bytes(data.subrange(4, 6)),
        game_type: spec_u16_from_le_bytes(data.subrange(6, 8)),
        vocab_size: spec_u32_from_le_bytes(data.subrange(8, 12)),
        num_games: spec_u32_from_le_bytes(data.subrange(12, 16)),
        max_seq_len: spec_u32_from_le_bytes(data.subrange(16, 20)),
        special_offset: spec_u16_from_le_bytes(data.subrange(20, 22)),
        category_dims: spec_u16_from_le_bytes(data.subrange(22, 24)),
        index_offset: HEADER_SIZE,
        file_size: data.len() as u64,
    }
}

/// What reading the header of the file `data` gives.
pub open spec fn info_of(data: Seq<u8>) -> Result<SomabinInfo, SomabinError> {
    if data.len() < 64 {
        Err(SomabinError::TooSmall)
    } else if data.take(4) != magic() {
        Err(SomabinError::BadMagic)
    } else {
        Ok(decode_info(data))
    }
}

/// Reads the header of a `.somabin` file whose bytes are `data`.
pub fn read_info(data: &[u8]) -> (res: Result<SomabinInfo, SomabinError>)
    ensures
        res == info_of(data@),
{
    if data.len() < 64 {
        return Err(SomabinError::TooSmall);
    }
    if !(data[0] == 0x53u8 && data[1] == 0x4Fu8 && data[2] == 0x4Du8 && data[3] == 0x41u8) {
        assert(data@.take(4) != magic()) by {
            if data@.take(4) == magic() {
                assert(data@.take(4)[0] == data@[0]);
                assert(data@.take(4)[1] == data@[1]);
                assert(data@.take(4)[2] == data@[2]);
                assert(data@.take(4)[3] == data@[3]);
            }
        }
        return Err(SomabinError::BadMagic);
    }
    assert(data@.take(4) =~= magic());
    let version = u16_from_le_bytes(slice_subrange(data, 4, 6));
    let game_type = u16_from_le_bytes(slice_subrange(data, 6, 8));
    let vocab_size = u32_from_le_bytes(slice_subrange(data, 8, 12));
    let num_games = u32_from_le_bytes(slice_subrange(data, 12, 16));
    let max_seq_len = u32_from_le_bytes(slice_subrange(data, 16, 20));
    let special_offset = u16_from_le_bytes(slice_subrange(data, 20, 22));
    let category_dims = u16_from_le_bytes(slice_subrange(data, 22, 24));
    let index_offset = HEADER_SIZE;
    Ok(
        SomabinInfo {
            version,
            game_type,
            vocab_size,
            num_games,
            max_seq_len,
            special_offset,
            category_dims,
            index_offset,
            file_size: data.len() as u64,
        },
    )
}

/// The name of a header's game type.
pub fn game_type_name(game_type: u16) -> (res: &'static str)
    ensures
        game_type == 0 ==> res@ == seq!['c', 'h', 'e', 's', 's'],
        game_type == 1 ==> res@ == seq!['g', 'o'],
        game_type == 2 ==> res@ == seq!['s', 'h', 'o', 'g', 'i'],
        game_type > 2 ==> res@ == seq!['u', 'n', 'k', 'n', 'o', 'w', 'n'],
{
    proof {
        reveal_strlit("chess");
        reveal_strlit("go");
        reveal_strlit("shogi");
        reveal_strlit("unknown");
    }
    if game_type == 0 {
        "chess"
    } else if game_type == 1 {
        "go"
    } else if game_type == 2 {
        "shogi"
    } else {
        "unknown"
    }
}

pub proof fn lemma_tokens_le(ts: Seq<u16>)
    ensures
        tokens_le(ts).len() == 2 * ts.len(),
    decreases ts.len(),
{
    lemma_auto_spec_u16_to_from_le_bytes();
    if ts.len() > 0 {
        lemma_tokens_le(ts.drop_last());
    }
}

pub proof fn lemma_index_le(offs: Seq<u64>)
    ensures
        index_le(offs).len() == 8 * offs.len(),
        forall|i: int|
            0 <= i < offs.len() ==> #[trigger] index_le(offs).subrange(8 * i, 8 * i + 8)
                == spec_u64_to_le_bytes(offs[i]),
    decreases offs.len(),
{
    lemma_auto_spec_u64_to_from_le_bytes();
    if offs.len() > 0 {
        let p = offs.drop_last();
        lemma_index_le(p);
        assert forall|i: int| 0 <= i < offs.len() implies #[trigger] index_le(offs).subrange(
            8 * i,
            8 * i + 8,
        ) == spec_u64_to_le_bytes(offs[i]) by {
            if i < offs.len() - 1 {
                assert(index_le(offs).subrange(8 * i, 8 * i + 8) =~= index_le(p).subrange(
                    8 * i,
                    8 * i + 8,
                ));
            } else {
                assert(index_le(offs).subrange(8 * i, 8 * i + 8) =~= spec_u64_to_le_bytes(
                    offs.last(),
                ));
            }
        }
    }
}

pub proof fn lemma_record_len(tokens: Seq<u16>, turns: Seq<u8>, cats: Seq<u8>, outcome: u8)
    ensures
        record_bytes(tokens, turns, cats, outcome).len() == 3 + 2 * tokens.len() + turns.len()
            + cats.len(),
{
    lemma_auto_spec_u16_to_from_le_bytes();
    lemma_tokens_le(tokens);
}

/// Appends the record of `game` to `out`.
fn push_record(out: &mut Vec<u8>, game: &TokenizedGame)
    ensures
        final(out)@ == old(out)@ + game.record(),
{
    proof {
        lemma_auto_spec_u16_to_from_le_bytes();
    }
    let n = game.token_ids.len();
    let seq_len = (n % 0x10000) as u16;
    let b = u16_to_le_bytes(seq_len);
    out.push(b[0]);
    out.push(b[1]);
    assert(out@ =~= old(out)@ + spec_u16_to_le_bytes(seq_len));
    let ghost start = out@;
    let mut i: usize = 0;
    while i < n
        invariant
            n == game.token_ids@.len(),
            0 <= i <= n,
            out@ == start + tokens_le(game.token_ids@.take(i as int)),
        decreases n - i,
    {
        let t = game.token_ids[i];
        let tb = u16_to_le_bytes(t);
        out.push(tb[0]);
        out.push(tb[1]);
        assert(game.token_ids@.take(i + 1).drop_last() =~= game.token_ids@.take(i as int));
        assert(out@ =~= start + tokens_le(game.token_ids@.take(i + 1)));
        i = i + 1;
    }
    assert(game.token_ids@.take(n as int) =~= game.token_ids@);
    let ghost mid = out@;
    let mut j: usize = 0;
    while j < game.turn_ids.len()
        invariant
            0 <= j <= game.turn_ids@.len(),
            out@ == mid + game.turn_ids@.take(j as int),
        decreases game.turn_ids@.len() - j,
    {
        out.push(game.turn_ids[j]);
        assert(out@ =~= mid + game.turn_ids@.take(j + 1));
        j = j + 1;
    }
    assert(game.turn_ids@.take(j as int) =~= game.turn_ids@);
    let ghost mid2 = out@;
    let mut k: usize = 0;
    while k < game.category_ids.len()
        invariant
            0 <= k <= game.category_ids@.len(),
            out@ == mid2 + game.category_ids@.take(k as int),
        decreases game.category_ids@.len() - k,
    {
        out.push(game.category_ids[k]);
        assert(out@ =~= mid2 + game.category_ids@.take(k + 1));
        k = k + 1;
    }
    assert(game.category_ids@.take(k as int) =~= game.category_ids@);
    out.push(game.outcome);
    assert(out@ =~= old(out)@ + game.record());
}

/// The bytes of `game`'s record.
pub fn encode_record(game: &TokenizedGame) -> (res: Vec<u8>)
    ensures
        res@ == game.record(),
{
    let mut out: Vec<u8> = Vec::new();
    push_record(&mut out, game);
    assert(out@ =~= game.record());
    out
}

/// What `finalize` hands back: the header and the index table, which come
/// first in the file, before the data section.
pub struct SomabinTail {
    pub header: Vec<u8>,
    pub index: Vec<u8>,
}

/// Writer for the `.somabin` binary format.
pub struct SomabinWriter {
    game_type: u16,
    vocab_size: u32,
    special_offset: u16,
    category_dims: u16,
    offsets: Vec<u64>,
    max_seq_len: u32,
    data_len: u64,
    data: Ghost<Seq<u8>>,
    records: Ghost<Seq<Seq<u8>>>,
    lens: Ghost<Seq<u16>>,
}

impl SomabinWriter {
    pub closed spec fn game_type(&self) -> u16 {
        self.game_type
    }

    pub closed spec fn vocab_size(&self) -> u32 {
        self.vocab_size
    }

    pub closed spec fn special_offset(&self) -> u16 {
        self.special_offset
    }

    pub closed spec fn category_dims(&self) -> u16 {
        self.category_dims
    }

    /// Offset of each record from the start of the data section, in order.
    pub closed spec fn offsets(&self) -> Seq<u64> {
        self.offsets@
    }

    pub closed spec fn max_seq_len(&self) -> u32 {
        self.max_seq_len
    }

    /// The data section as handed out so far: the records, in order.
    pub closed spec fn data(&self) -> Seq<u8> {
        self.data@
    }

    /// The record bytes of each game written, in order.
    pub closed spec fn records(&self) -> Seq<Seq<u8>> {
        self.records@
    }

    /// The `seq_len` field of each game written, in order.
    pub closed spec fn lens(&self) -> Seq<u16> {
        self.lens@
    }

    /// The records lie one after another in the data section, from its
    /// start, each at its offset; `max_seq_len` is the largest `seq_len`.
    pub open spec fn wf(&self) -> bool {
        &&& self.inner_wf()
        &&& self.offsets().len() == self.records().len()
        &&& self.lens().len() == self.records().len()
        &&& self.max_seq_len() == max_len(self.lens())
        &&& self.records().len() == 0 ==> self.data().len() == 0
        &&& self.records().len() > 0 ==> self.offsets()[0] == 0 && self.offsets().last()
            + self.records().last().len() == self.data().len()
        &&& forall|i: int|
            0 <= i < self.records().len() - 1 ==> #[trigger] self.offsets()[i + 1]
                == self.offsets()[i] + self.records()[i].len()
        &&& forall|i: int|
            0 <= i < self.records().len() ==> {
                &&& #[trigger] self.offsets()[i] + self.records()[i].len() <= self.data().len()
                &&& self.data().subrange(
                    self.offsets()[i] as int,
                    self.offsets()[i] + self.records()[i].len(),
                ) == self.records()[i]
            }
    }

    /// The writer's count of data bytes matches the data section.
    pub closed spec fn inner_wf(&self) -> bool {
        self.data_len == self.data@.len()
    }

    /// The header that `finalize` hands back.
    pub open spec fn final_header(&self) -> Seq<u8> {
        header_bytes(
            FORMAT_VERSION,
            self.game_type(),
            self.vocab_size(),
            (self.offsets().len() % 0x1_0000_0000) as u32,
            self.max_seq_len(),
            self.special_offset(),
            self.category_dims(),
        )
    }

    /// The complete file: the header, the index, then the data section.
    pub open spec fn finished_file(&self) -> Seq<u8> {
        self.final_header() + index_le(self.offsets()) + self.data()
    }

    pub fn new(game_type: u16, vocab_size: u32, special_offset: u16, category_dims: u16) -> (res:
        Self)
        ensures
            res.wf(),
            res.game_type() == game_type,
            res.vocab_size() == vocab_size,
            res.special_offset() == special_offset,
            res.category_dims() == category_dims,
            res.offsets() == Seq::<u64>::empty(),
            res.records() == Seq::<Seq<u8>>::empty(),
            res.lens() == Seq::<u16>::empty(),
            res.max_seq_len() == 0,
            res.data() == Seq::<u8>::empty(),
    {
        SomabinWriter {
            game_type,
            vocab_size,
            special_offset,
            category_dims,
            offsets: Vec::new(),
            max_seq_len: 0,
            data_len: 0,
            data: Ghost(Seq::empty()),
            records: Ghost(Seq::empty()),
            lens: Ghost(Seq::empty()),
        }
    }

    /// Number of data bytes handed out so far.
    pub fn bytes_written(&self) -> (res: u64)
        requires
            self.wf(),
        ensures
            res == self.data().len(),
    {
        self.data_len
    }

    /// Starts writing. The header and the index come first in the file but
    /// depend on every game, so nothing is handed out before the records;
    /// the writer is left as it is.
    pub fn begin(&mut self, estimated_games: u32)
        ensures
            *final(self) == *old(self),
    {
    }

    /// The record of `game`, the next bytes of the data section; its offset
    /// enters the index.
    pub fn write_game(&mut self, game: &TokenizedGame) -> (res: Vec<u8>)
        requires
            old(self).wf(),
            old(self).data().len() + game.record().len() <= u64::MAX,
        ensures
            final(self).wf(),
            res@ == game.record(),
            final(self).data() == old(self).data() + res@,
            final(self).offsets() == old(self).offsets().push(old(self).data().len() as u64),
            final(self).records() == old(self).records().push(game.record()),
            final(self).lens() == old(self).lens().push(seq_len_field(game.token_ids@.len())),
            final(self).max_seq_len() == max_len(final(self).lens()),
            final(self).game_type() == old(self).game_type(),
            final(self).vocab_size() == old(self).vocab_size(),
            final(self).special_offset() == old(self).special_offset(),
            final(self).category_dims() == old(self).category_dims(),
    {
        let current_pos = self.data_len;
        self.offsets.push(current_pos);
        let seq_len = (game.token_ids.len() % 0x10000) as u16;
        if seq_len as u32 > self.max_seq_len {
            self.max_seq_len = seq_len as u32;
        }
        let bytes = encode_record(game);
        let ghost old_data = self.data@;
        let ghost old_records = self.records@;
        self.data_len = self.data_len + bytes.len() as u64;
        self.data = Ghost(self.data@ + bytes@);
        self.records = Ghost(self.records@.push(bytes@));
        self.lens = Ghost(self.lens@.push(seq_len));
        assert(self.lens@.drop_last() =~= old(self).lens@);
        assert forall|k: int| 0 <= k < self.records@.len() - 1 implies #[trigger] self.offsets@[k
            + 1] == self.offsets@[k] + self.records@[k].len() by {
            if k < self.records@.len() - 2 {
                assert(self.offsets@[k + 1] == old(self).offsets@[k + 1]);
            }
        }
        assert forall|k: int| 0 <= k < self.records@.len() implies {
            &&& #[trigger] self.offsets@[k] + self.records@[k].len() <= self.data@.len()
            &&& self.data@.subrange(
                self.offsets@[k] as int,
                self.offsets@[k] + self.records@[k].len(),
            ) == self.records@[k]
        } by {
            if k < self.records@.len() - 1 {
                assert(self.data@.subrange(
                    self.offsets@[k] as int,
                    self.offsets@[k] + self.records@[k].len(),
                ) =~= old_data.subrange(
                    self.offsets@[k] as int,
                    self.offsets@[k] + self.records@[k].len(),
                ));
            } else {
                assert(self.data@.subrange(
                    self.offsets@[k] as int,
                    self.offsets@[k] + self.records@[k].len(),
                ) =~= bytes@);
            }
        }
        bytes
    }

    /// The header and the index table.
    pub fn finalize(self) -> (res: SomabinTail)
        requires
            self.wf(),
        ensures
            res.header@ == self.final_header(),
            res.header@.len() == 64,
            res.index@ == index_le(self.offsets()),
    {
        proof {
            lemma_auto_spec_u16_to_from_le_bytes();
            lemma_auto_spec_u32_to_from_le_bytes();
            lemma_auto_spec_u64_to_from_le_bytes();
        }
        let num_games = ((self.offsets.len() as u64) % 0x1_0000_0000) as u32;
        let mut index: Vec<u8> = Vec::new();
        let mut i: usize = 0;
        while i < self.offsets.len()
            invariant
                0 <= i <= self.offsets@.len(),
                index@ == index_le(self.offsets@.take(i as int)),
            decreases self.offsets@.len() - i,
        {
            let mut b = u64_to_le_bytes(self.offsets[i]);
            index.append(&mut b);
            assert(self.offsets@.take(i + 1).drop_last() =~= self.offsets@.take(i as int));
            i = i + 1;
        }
        assert(self.offsets@.take(i as int) =~= self.offsets@);
        let mut header: Vec<u8> = Vec::new();
        header.push(0x53u8);
        header.push(0x4Fu8);
        header.push(0x4Du8);
        header.push(0x41u8);
        let mut f = u16_to_le_bytes(FORMAT_VERSION);
        header.append(&mut f);
        let mut f = u16_to_le_bytes(self.game_type);
        header.append(&mut f);
        let mut f = u32_to_le_bytes(self.vocab_size);
        header.append(&mut f);
        let mut f = u32_to_le_bytes(num_games);
        header.append(&mut f);
        let mut f = u32_to_le_bytes(self.max_seq_len);
        header.append(&mut f);
        let mut f = u16_to_le_bytes(self.special_offset);
        header.append(&mut f);
        let mut f = u16_to_le_bytes(self.category_dims);
        header.append(&mut f);
        let ghost pre = header@;
        let mut j: usize = 0;
        while j < 40
            invariant
                0 <= j <= 40,
                header@ == pre + Seq::new(j as nat, |k: int| 0u8),
            decreases 40 - j,
        {
            header.push(0u8);
            assert(header@ =~= pre + Seq::new((j + 1) as nat, |k: int| 0u8));
            j = j + 1;
        }
        assert(header@ =~= self.final_header());
        SomabinTail { header, index }
    }
}

/// Reading back the header of a finished file gives the writer's settings,
/// the number of games written (modulo 2^32) and the longest `seq_len`; the
/// index starts right after the header, and the reserved header bytes 24 to
/// 64 are zero. Byte by byte, the header is `SOMA`, then little-endian the
/// format version 1 (bytes 4..6), the game type (6..8), the vocabulary size
/// (8..12), the number of games (12..16), the longest `seq_len` (16..20),
/// the special-token offset (20..22) and the category count (22..24).
pub proof fn law_finished_header(w: SomabinWriter)
    requires
        w.wf(),
        64 + 8 * w.offsets().len() + w.data().len() <= u64::MAX,
    ensures
        info_of(w.finished_file()) == Ok::<SomabinInfo, SomabinError>(
            SomabinInfo {
                version: FORMAT_VERSION,
                game_type: w.game_type(),
                vocab_size: w.vocab_size(),
                num_games: (w.offsets().len() % 0x1_0000_0000) as u32,
                max_seq_len: w.max_seq_len(),
                special_offset: w.special_offset(),
                category_dims: w.category_dims(),
                index_offset: HEADER_SIZE,
                file_size: (64 + 8 * w.offsets().len() + w.data().len()) as u64,
            },
        ),
        w.finished_file().subrange(24, 64) == Seq::new(40, |i: int| 0u8),
        w.finished_file().subrange(0, 4) == seq![0x53u8, 0x4Fu8, 0x4Du8, 0x41u8],
        w.finished_file().subrange(4, 6) == spec_u16_to_le_bytes(1u16),
        w.finished_file().subrange(6, 8) == spec_u16_to_le_bytes(w.game_type()),
        w.finished_file().subrange(8, 12) == spec_u32_to_le_bytes(w.vocab_size()),
        w.finished_file().subrange(12, 16) == spec_u32_to_le_bytes(
            (w.offsets().len() % 0x1_0000_0000) as u32,
        ),
        w.finished_file().subrange(16, 20) == spec_u32_to_le_bytes(w.max_seq_len()),
        w.finished_file().subrange(20, 22) == spec_u16_to_le_bytes(w.special_offset()),
        w.finished_file().subrange(22, 24) == spec_u16_to_le_bytes(w.category_dims()),
{
    lemma_auto_spec_u16_to_from_le_bytes();
    lemma_auto_spec_u32_to_from_le_bytes();
    lemma_auto_spec_u64_to_from_le_bytes();
    lemma_index_le(w.offsets());
    let h = w.final_header();
    let f = w.finished_file();
    assert(h.len() == 64);
    assert(f.subrange(0, 64) =~= h);
    assert(f.take(4) =~= magic());
    assert(f.subrange(4, 6) =~= spec_u16_to_le_bytes(FORMAT_VERSION));
    assert(f.subrange(6, 8) =~= spec_u16_to_le_bytes(w.game_type()));
    assert(f.subrange(8, 12) =~= spec_u32_to_le_bytes(w.vocab_size()));
    assert(f.subrange(12, 16) =~= spec_u32_to_le_bytes(
        (w.offsets().len() % 0x1_0000_0000) as u32,
    ));
    assert(f.subrange(16, 20) =~= spec_u32_to_le_bytes(w.max_seq_len()));
    assert(f.subrange(20, 22) =~= spec_u16_to_le_bytes(w.special_offset()));
    assert(f.subrange(22, 24) =~= spec_u16_to_le_bytes(w.category_dims()));
    assert(f.subrange(24, 64) =~= Seq::new(40, |i: int| 0u8));
}

/// In a finished file of `n` games, index entry `i` (at byte `64 + 8 * i`)
/// holds the offset of game `i`'s record from the start of the data section
/// (at byte `64 + 8 * n`), and the record stands there; the first offset is
/// 0 and each record follows the one before.
pub proof fn law_finished_records(w: SomabinWriter, i: int)
    requires
        w.wf(),
        0 <= i < w.offsets().len(),
    ensures
        ({
            let f = w.finished_file();
            let n = w.offsets().len();
            let off = 64 + 8 * n + w.offsets()[i];
            &&& spec_u64_from_le_bytes(f.subrange(64 + 8 * i, 64 + 8 * i + 8)) == w.offsets()[i]
            &&& f.subrange(off, off + w.records()[i].len()) == w.records()[i]
            &&& w.offsets()[0] == 0
            &&& i + 1 < n ==> w.offsets()[i + 1] == w.offsets()[i] + w.records()[i].len()
        }),
{
    lemma_auto_spec_u16_to_from_le_bytes();
    lemma_auto_spec_u32_to_from_le_bytes();
    lemma_auto_spec_u64_to_from_le_bytes();
    lemma_index_le(w.offsets());
    let f = w.finished_file();
    let h = w.final_header();
    let ix = index_le(w.offsets());
    let n = w.offsets().len();
    let off = w.offsets()[i] as int;
    let len = w.records()[i].len();
    assert(h.len() == 64);
    assert(ix.len() == 8 * n);
    assert(f.subrange(64 + 8 * i, 64 + 8 * i + 8) =~= ix.subrange(8 * i, 8 * i + 8));
    assert(w.data().subrange(off, off + len) == w.records()[i]);
    assert(f.subrange(64 + 8 * n + off, 64 + 8 * n + off + len) =~= w.data().subrange(
        off,
        off + len,
    ));
}

/// The header's `max_seq_len` bounds every record's `seq_len` and, once a
/// game is written, is one of them.
pub proof fn law_max_seq_len(lens: Seq<u16>)
    ensures
        forall|i: int| 0 <= i < lens.len() ==> #[trigger] lens[i] as u32 <= max_len(lens),
        lens.len() > 0 ==> exists|i: int| 0 <= i < lens.len() && lens[i] as u32 == max_len(lens),
    decreases lens.len(),
{
    if lens.len() > 0 {
        let p = lens.drop_last();
        law_max_seq_len(p);
        assert forall|i: int| 0 <= i < lens.len() implies #[trigger] lens[i] as u32 <= max_len(lens) by {
            if i < lens.len() - 1 {
                assert(lens[i] == p[i]);
            }
        }
        if max_len(lens) != lens.last() as u32 {
            let j = choose|j: int| 0 <= j < p.len() && p[j] as u32 == max_len(p);
            assert(lens[j] == p[j]);
        } else {
            assert(lens[lens.len() - 1] as u32 == max_len(lens));
        }
    }
}

/// A game whose three sequences have the same length, below 65536, has a
/// record whose `seq_len` is that length and whose size is `3 + 4 * seq_len`.
pub proof fn law_record_of_consistent_game(g: TokenizedGame)
    requires
        g.token_ids@.len() < 0x10000,
        g.turn_ids@.len() == g.token_ids@.len(),
        g.category_ids@.len() == g.token_ids@.len(),
    ensures
        spec_u16_from_le_bytes(g.record().take(2)) == g.token_ids@.len(),
        g.record().len() == 3 + 4 * g.token_ids@.len(),
{
    lemma_auto_spec_u16_to_from_le_bytes();
    lemma_record_len(g.token_ids@, g.turn_ids@, g.category_ids@, g.outcome);
    assert(g.record().take(2) =~= spec_u16_to_le_bytes(seq_len_field(g.token_ids@.len())));
}


/// Reading a header takes each field from its place: little-endian, the
/// version from bytes 4..6, the game type from 6..8, the vocabulary size from
/// 8..12, the number of games from 12..16, the longest `seq_len` from 16..20,
/// the special-token offset from 20..22 and the category count from 22..24;
/// a file shorter than 64 bytes, or not starting with `SOMA`, is refused.
pub proof fn law_read_info_fields(data: Seq<u8>)
    ensures
        data.len() < 64 <==> info_of(data) == Err::<SomabinInfo, SomabinError>(
            SomabinError::TooSmall,
        ),
        data.len() >= 64 && data.subrange(0, 4) != seq![0x53u8, 0x4Fu8, 0x4Du8, 0x41u8] <==> info_of(
            data,
        ) == Err::<SomabinInfo, SomabinError>(SomabinError::BadMagic),
        info_of(data) matches Ok(i) ==> {
            &&& data.len() >= 64
            &&& data.subrange(0, 4) == seq![0x53u8, 0x4Fu8, 0x4Du8, 0x41u8]
            &&& i.version == spec_u16_from_le_bytes(data.subrange(4, 6))
            &&& i.game_type == spec_u16_from_le_bytes(data.subrange(6, 8))
            &&& i.vocab_size == spec_u32_from_le_bytes(data.subrange(8, 12))
            &&& i.num_games == spec_u32_from_le_bytes(data.subrange(12, 16))
            &&& i.max_seq_len == spec_u32_from_le_bytes(data.subrange(16, 20))
            &&& i.special_offset == spec_u16_from_le_bytes(data.subrange(20, 22))
            &&& i.category_dims == spec_u16_from_le_bytes(data.subrange(22, 24))
            &&& i.index_offset == 64
            &&& i.file_size == data.len() as u64
        },
{
    if data.len() >= 64 {
        assert(data.take(4) =~= data.subrange(0, 4));
    }
}

} // verus!
