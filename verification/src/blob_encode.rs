//! The layout of a batch's blob: a version, reserved bytes, the market slots and
//! the account leaves.

use crate::big::be_value;
use crate::kzg::{empty_market_slot, MarketLimbs};
use vstd::prelude::*;

verus! {

/// Field elements of a blob.
pub const BLOB_WIDTH: usize = 4096;

/// Bytes of a packed blob: 31 for each field element.
pub const BLOB_DATA_BYTES_COUNT: usize = 126_976;

/// Market slots.
pub const BLOB_MARKETS: usize = 255;

pub const BLOB_VERSION_INDEX: usize = 0;

/// Two bytes of version.
pub const BLOB_RESERVED_INDEX: usize = 2;

/// 32 reserved bytes.
pub const BLOB_MARK_PRICE_INDEX: usize = 34;

/// Bytes of a mark price.
pub const MARK_PRICE_BYTE_SIZE: usize = 4;

/// Four bytes per market.
pub const BLOB_FUNDING_INDEX: usize = 1_054;

/// Nine bytes per market: a sign and two limbs.
pub const BLOB_QUOTE_MULTIPLIER_INDEX: usize = 3_349;

/// Bytes of a quote multiplier.
pub const QUOTE_MULTIPLIER_BYTE_SIZE: usize = 2;

/// Two bytes per market; the account leaves follow.
pub const BLOB_ACCOUNT_OFFSET: usize = 3_859;

/// The regions of a blob follow each other, each as long as its slots.
pub proof fn regions_are_adjacent()
    ensures
        BLOB_DATA_BYTES_COUNT == 31 * BLOB_WIDTH,
        BLOB_RESERVED_INDEX == BLOB_VERSION_INDEX + 2,
        BLOB_MARK_PRICE_INDEX == BLOB_RESERVED_INDEX + 32,
        BLOB_FUNDING_INDEX == BLOB_MARK_PRICE_INDEX + MARK_PRICE_BYTE_SIZE * BLOB_MARKETS,
        BLOB_QUOTE_MULTIPLIER_INDEX == BLOB_FUNDING_INDEX + 9 * BLOB_MARKETS,
        BLOB_ACCOUNT_OFFSET == BLOB_QUOTE_MULTIPLIER_INDEX + QUOTE_MULTIPLIER_BYTE_SIZE * BLOB_MARKETS,
        BLOB_ACCOUNT_OFFSET < BLOB_DATA_BYTES_COUNT,
{
}

/// The blob of an empty batch: zeros.
pub fn empty_blob() -> (r: Vec<u8>)
    ensures
        r@ == Seq::new(BLOB_DATA_BYTES_COUNT as nat, |i: int| 0u8),
{
    let r: Vec<u8> = vec![0u8; BLOB_DATA_BYTES_COUNT];
    assert(r@ =~= Seq::new(BLOB_DATA_BYTES_COUNT as nat, |i: int| 0u8));
    r
}

/// The market slots of an empty batch.
pub fn empty_market_limbs() -> (r: Vec<MarketLimbs>)
    ensures
        r@ == Seq::new(BLOB_MARKETS as nat, |i: int| empty_market_slot()),
{
    let mut r: Vec<MarketLimbs> = Vec::new();
    let mut i: usize = 0;
    while i < BLOB_MARKETS
        invariant
            i <= BLOB_MARKETS,
            r@.len() == i,
            forall|j: int| 0 <= j < i ==> r@[j] == empty_market_slot(),
        decreases BLOB_MARKETS - i,
    {
        r.push(MarketLimbs::default());
        i = i + 1;
    }
    assert(r@ =~= Seq::new(BLOB_MARKETS as nat, |i: int| empty_market_slot()));
    r
}

/// Four bytes for `v`, the most significant one first.
pub open spec fn be4(v: u32) -> Seq<u8> {
    seq![
        (v / 0x100_0000) as u8,
        (v / 0x1_0000 % 0x100) as u8,
        (v / 0x100 % 0x100) as u8,
        (v % 0x100) as u8,
    ]
}

/// Two bytes for `v`, the most significant one first.
pub open spec fn be2(v: u16) -> Seq<u8> {
    seq![(v / 0x100) as u8, (v % 0x100) as u8]
}

/// `blob` with `bytes` written over it from `off` on.
pub open spec fn overwritten(blob: Seq<u8>, off: int, bytes: Seq<u8>) -> Seq<u8> {
    Seq::new(
        blob.len(),
        |i: int|
            if off <= i < off + bytes.len() {
                bytes[i - off]
            } else {
                blob[i]
            },
    )
}

/// Writes the mark price of a market slot.
pub fn write_mark_price(blob: &mut Vec<u8>, market_index: usize, mark_price: u32)
    requires
        old(blob)@.len() == BLOB_DATA_BYTES_COUNT,
        BLOB_MARK_PRICE_INDEX + market_index * MARK_PRICE_BYTE_SIZE + MARK_PRICE_BYTE_SIZE
            <= BLOB_DATA_BYTES_COUNT,
    ensures
        final(blob)@ == overwritten(
            old(blob)@,
            BLOB_MARK_PRICE_INDEX + market_index * MARK_PRICE_BYTE_SIZE,
            be4(mark_price),
        ),
{
    let off: usize = BLOB_MARK_PRICE_INDEX + market_index * MARK_PRICE_BYTE_SIZE;
    blob[off] = (mark_price / 0x100_0000) as u8;
    blob[off + 1] = (mark_price / 0x1_0000 % 0x100) as u8;
    blob[off + 2] = (mark_price / 0x100 % 0x100) as u8;
    blob[off + 3] = (mark_price % 0x100) as u8;
    assert(blob@ =~= overwritten(old(blob)@, off as int, be4(mark_price)));
}

/// Writes the quote multiplier of a market slot.
pub fn write_quote_multiplier(blob: &mut Vec<u8>, market_index: usize, quote_multiplier: u16)
    requires
        old(blob)@.len() == BLOB_DATA_BYTES_COUNT,
        BLOB_QUOTE_MULTIPLIER_INDEX + market_index * QUOTE_MULTIPLIER_BYTE_SIZE
            + QUOTE_MULTIPLIER_BYTE_SIZE <= BLOB_DATA_BYTES_COUNT,
    ensures
        final(blob)@ == overwritten(
            old(blob)@,
            BLOB_QUOTE_MULTIPLIER_INDEX + market_index * QUOTE_MULTIPLIER_BYTE_SIZE,
            be2(quote_multiplier),
        ),
{
    let off: usize = BLOB_QUOTE_MULTIPLIER_INDEX + market_index * QUOTE_MULTIPLIER_BYTE_SIZE;
    blob[off] = (quote_multiplier / 0x100) as u8;
    blob[off + 1] = (quote_multiplier % 0x100) as u8;
    assert(blob@ =~= overwritten(old(blob)@, off as int, be2(quote_multiplier)));
}

/// Where the mark price of market `m` stands.
pub open spec fn mark_price_at(m: int) -> int {
    BLOB_MARK_PRICE_INDEX + m * MARK_PRICE_BYTE_SIZE
}

/// Where the quote multiplier of market `m` stands.
pub open spec fn quote_multiplier_at(m: int) -> int {
    BLOB_QUOTE_MULTIPLIER_INDEX + m * QUOTE_MULTIPLIER_BYTE_SIZE
}

/// A mark price that was written is read back, most significant byte first.
pub proof fn mark_prices_are_read_back(blob: Seq<u8>, m: int, price: u32)
    requires
        blob.len() == BLOB_DATA_BYTES_COUNT,
        0 <= m < BLOB_MARKETS,
    ensures
        ({
            let at = mark_price_at(m);
            be_value(overwritten(blob, at, be4(price)).subrange(at, at + 4)) == price
        }),
{
    let at = mark_price_at(m);
    let b = overwritten(blob, at, be4(price)).subrange(at, at + 4);
    assert(b =~= be4(price));
    let b3 = b.drop_last();
    let b2 = b3.drop_last();
    let b1 = b2.drop_last();
    assert(b1.drop_last() =~= Seq::<u8>::empty());
    assert(be_value(b1.drop_last()) == 0);
    assert(be_value(b1) == price / 0x100_0000);
    assert(be_value(b2) == price / 0x1_0000);
    assert(be_value(b3) == price / 0x100);
}

/// A quote multiplier that was written is read back, most significant byte first.
pub proof fn quote_multipliers_are_read_back(blob: Seq<u8>, m: int, multiplier: u16)
    requires
        blob.len() == BLOB_DATA_BYTES_COUNT,
        0 <= m < BLOB_MARKETS,
    ensures
        ({
            let at = quote_multiplier_at(m);
            be_value(overwritten(blob, at, be2(multiplier)).subrange(at, at + 2)) == multiplier
        }),
{
    let at = quote_multiplier_at(m);
    let b = overwritten(blob, at, be2(multiplier)).subrange(at, at + 2);
    assert(b =~= be2(multiplier));
    let b1 = b.drop_last();
    assert(b1.drop_last() =~= Seq::<u8>::empty());
    assert(be_value(b1.drop_last()) == 0);
    assert(be_value(b1) == multiplier / 0x100);
}

/// Writes to ranges that do not overlap can be made in either order, and neither
/// undoes the other.
proof fn lemma_writes_commute(blob: Seq<u8>, p: int, x: Seq<u8>, q: int, y: Seq<u8>)
    requires
        p + x.len() <= q || q + y.len() <= p,
    ensures
        overwritten(overwritten(blob, p, x), q, y) == overwritten(overwritten(blob, q, y), p, x),
{
    assert(overwritten(overwritten(blob, p, x), q, y) =~= overwritten(
        overwritten(blob, q, y),
        p,
        x,
    ));
}

/// The slots of the markets can be written in any order: two mark prices of
/// different markets, two quote multipliers of different markets, or one of each.
pub proof fn market_writes_commute(
    blob: Seq<u8>,
    a: int,
    b: int,
    pa: u32,
    pb: u32,
    qa: u16,
    qb: u16,
)
    requires
        0 <= a < BLOB_MARKETS,
        0 <= b < BLOB_MARKETS,
    ensures
        a != b ==> overwritten(overwritten(blob, mark_price_at(a), be4(pa)), mark_price_at(b), be4(pb))
            == overwritten(overwritten(blob, mark_price_at(b), be4(pb)), mark_price_at(a), be4(pa)),
        a != b ==> overwritten(
            overwritten(blob, quote_multiplier_at(a), be2(qa)),
            quote_multiplier_at(b),
            be2(qb),
        ) == overwritten(
            overwritten(blob, quote_multiplier_at(b), be2(qb)),
            quote_multiplier_at(a),
            be2(qa),
        ),
        overwritten(overwritten(blob, mark_price_at(a), be4(pa)), quote_multiplier_at(b), be2(qb))
            == overwritten(
            overwritten(blob, quote_multiplier_at(b), be2(qb)),
            mark_price_at(a),
            be4(pa),
        ),
{
    if a != b {
        lemma_writes_commute(blob, mark_price_at(a), be4(pa), mark_price_at(b), be4(pb));
        lemma_writes_commute(
            blob,
            quote_multiplier_at(a),
            be2(qa),
            quote_multiplier_at(b),
            be2(qb),
        );
    }
    lemma_writes_commute(blob, mark_price_at(a), be4(pa), quote_multiplier_at(b), be2(qb));
}

/// Writing a market's slots leaves the version, the reserved bytes and the account
/// leaves as they are.
pub proof fn market_writes_keep_the_rest(blob: Seq<u8>, m: int, price: u32, multiplier: u16, i: int)
    requires
        0 <= m < BLOB_MARKETS,
        0 <= i < blob.len(),
        i < BLOB_MARK_PRICE_INDEX || i >= BLOB_ACCOUNT_OFFSET,
    ensures
        overwritten(blob, mark_price_at(m), be4(price))[i] == blob[i],
        overwritten(blob, quote_multiplier_at(m), be2(multiplier))[i] == blob[i],
{
}

} // verus!
