//! Helpers on byte sequences shared by the codecs.
use vstd::prelude::*;

verus! {

/// Whether two byte slices hold the same bytes.
pub fn bytes_equal(a: &[u8], b: &[u8]) -> (same: bool)
    ensures
        same == (a@ == b@),
{
    if a.len() != b.len() {
        return false;
    }
    let mut i: usize = 0;
    while i < a.len()
        invariant
            a@.len() == b@.len(),
            i <= a@.len(),
            forall|k: int| 0 <= k < i ==> a@[k] == b@[k],
        decreases a@.len() - i,
    {
        if a[i] != b[i] {
            return false;
        }
        i += 1;
    }
    assert(a@ =~= b@);
    true
}

/// 256 to the power of `width`: the number of values that `width` bytes hold.
pub open spec fn radix(width: nat) -> nat
    decreases width,
{
    if width == 0 {
        1
    } else {
        256 * radix((width - 1) as nat)
    }
}

/// The `width` low bytes of a number, the most significant first.
pub open spec fn be_bytes(value: nat, width: nat) -> Seq<u8>
    decreases width,
{
    if width == 0 {
        Seq::empty()
    } else {
        be_bytes(value / 256, (width - 1) as nat).push((value % 256) as u8)
    }
}

/// The number that bytes stand for, the most significant first.
pub open spec fn be_value(bytes: Seq<u8>) -> nat
    decreases bytes.len(),
{
    if bytes.len() == 0 {
        0
    } else {
        be_value(bytes.drop_last()) * 256 + bytes.last() as nat
    }
}

/// `be_bytes` gives `width` bytes.
pub proof fn lemma_be_bytes_len(value: nat, width: nat)
    ensures
        be_bytes(value, width).len() == width,
    decreases width,
{
    if width > 0 {
        lemma_be_bytes_len(value / 256, (width - 1) as nat);
    }
}

/// Bytes stand for a number below the radix of their count.
pub proof fn lemma_be_value_bound(bytes: Seq<u8>)
    ensures
        be_value(bytes) < radix(bytes.len()),
    decreases bytes.len(),
{
    if bytes.len() > 0 {
        lemma_be_value_bound(bytes.drop_last());
    }
}

/// A number that fits into `width` bytes is read back from them unchanged.
pub proof fn lemma_be_round_trip(value: nat, width: nat)
    requires
        value < radix(width),
    ensures
        be_value(be_bytes(value, width)) == value,
    decreases width,
{
    if width > 0 {
        let head = be_bytes(value / 256, (width - 1) as nat);
        lemma_be_round_trip(value / 256, (width - 1) as nat);
        assert(head.push((value % 256) as u8).drop_last() =~= head);
    }
}

/// Sixteen bytes hold exactly the values of a `u128`.
pub proof fn lemma_radix_16()
    ensures
        radix(16) == 0x1_0000_0000_0000_0000_0000_0000_0000_0000,
{
    assert(radix(4) == 0x1_0000_0000) by {
        reveal_with_fuel(radix, 5);
    }
    assert(radix(8) == 0x1_0000_0000_0000_0000) by {
        reveal_with_fuel(radix, 5);
    }
    assert(radix(12) == 0x1_0000_0000_0000_0000_0000_0000) by {
        reveal_with_fuel(radix, 5);
    }
    assert(radix(16) == 0x1_0000_0000_0000_0000_0000_0000_0000_0000) by {
        reveal_with_fuel(radix, 5);
    }
}

/// Appends the `width` low bytes of a number, the most significant first.
pub fn push_be(out: &mut Vec<u8>, value: u128, width: usize)
    ensures
        final(out)@ == old(out)@ + be_bytes(value as nat, width as nat),
    decreases width,
{
    if width > 0 {
        push_be(out, value / 256, width - 1);
        out.push((value % 256) as u8);
        assert(out@ =~= old(out)@ + be_bytes(value as nat, width as nat));
    } else {
        assert(out@ =~= old(out)@ + be_bytes(value as nat, width as nat));
    }
}

/// Reads sixteen bytes as a number, the most significant first.
pub fn read_be(bytes: &[u8]) -> (value: u128)
    requires
        bytes@.len() == 16,
    ensures
        value == be_value(bytes@),
{
    let mut value: u128 = 0;
    let mut i: usize = 0;
    while i < 16
        invariant
            i <= 16,
            bytes@.len() == 16,
            value == be_value(bytes@.take(i as int)),
        decreases 16 - i,
    {
        proof {
            lemma_radix_16();
            lemma_be_value_bound(bytes@.take(i as int));
            lemma_radix_grows(i as nat, 15);
            assert(radix(16) == 256 * radix(15));
            assert(bytes@.take(i + 1).drop_last() =~= bytes@.take(i as int));
        }
        value = value * 256 + bytes[i] as u128;
        i += 1;
    }
    assert(bytes@.take(16) =~= bytes@);
    value
}

/// The radix grows with the width.
pub proof fn lemma_radix_grows(a: nat, b: nat)
    requires
        a <= b,
    ensures
        radix(a) <= radix(b),
    decreases b,
{
    if a < b {
        lemma_radix_grows(a, (b - 1) as nat);
    }
}

/// A copy of the bytes from `from` up to `to`.
pub fn copy_range(bytes: &[u8], from: usize, to: usize) -> (out: Vec<u8>)
    requires
        from <= to <= bytes@.len(),
    ensures
        out@ == bytes@.subrange(from as int, to as int),
{
    vstd::slice::slice_to_vec(vstd::slice::slice_subrange(bytes, from, to))
}

/// The byte sequences of a list of byte vectors.
pub open spec fn byte_views(parts: Seq<Vec<u8>>) -> Seq<Seq<u8>> {
    Seq::new(parts.len(), |i: int| parts[i]@)
}

/// The parts one after the other.
pub open spec fn joined(parts: Seq<Seq<u8>>) -> Seq<u8>
    decreases parts.len(),
{
    if parts.len() == 0 {
        Seq::empty()
    } else {
        joined(parts.drop_last()) + parts.last()
    }
}

/// The complete chunks of `size` bytes at the front of the data, in their
/// order; what is left behind them and is shorter is dropped.
pub open spec fn chunks_of(data: Seq<u8>, size: nat) -> Seq<Seq<u8>>
    recommends
        size > 0,
    decreases data.len(),
{
    if size == 0 || data.len() < size {
        Seq::empty()
    } else {
        seq![data.subrange(0, size as int)] + chunks_of(data.skip(size as int), size)
    }
}

/// Every chunk has the asked size.
pub proof fn lemma_chunks_of(data: Seq<u8>, size: nat)
    ensures
        forall|i: int|
            0 <= i < chunks_of(data, size).len() ==> (#[trigger] chunks_of(data, size)[i]).len()
                == size,
    decreases data.len(),
{
    if !(size == 0 || data.len() < size) {
        let rest = chunks_of(data.skip(size as int), size);
        lemma_chunks_of(data.skip(size as int), size);
        assert forall|i: int| 0 <= i < chunks_of(data, size).len() implies (#[trigger] chunks_of(
            data,
            size,
        )[i]).len() == size by {
            if i > 0 {
                assert(chunks_of(data, size)[i] == rest[i - 1]);
            }
        }
    }
}

/// Copies of the complete chunks of `size` bytes at the front of the data.
pub fn chunks(data: &[u8], size: usize) -> (out: Vec<Vec<u8>>)
    requires
        size > 0,
    ensures
        byte_views(out@) == chunks_of(data@, size as nat),
{
    let mut out: Vec<Vec<u8>> = Vec::new();
    let mut cursor: usize = 0;
    assert(data@.skip(0) =~= data@);
    assert(byte_views(out@) + chunks_of(data@.skip(0), size as nat) =~= chunks_of(
        data@,
        size as nat,
    ));
    while data.len() - cursor >= size
        invariant
            size > 0,
            cursor <= data@.len(),
            byte_views(out@) + chunks_of(data@.skip(cursor as int), size as nat) == chunks_of(
                data@,
                size as nat,
            ),
        decreases data@.len() - cursor,
    {
        let ghost before = byte_views(out@);
        let ghost rest = data@.skip(cursor as int);
        let chunk = copy_range(data, cursor, cursor + size);
        proof {
            assert(chunk@ =~= rest.subrange(0, size as int));
            assert(rest.skip(size as int) =~= data@.skip(cursor + size));
        }
        out.push(chunk);
        proof {
            assert(byte_views(out@) =~= before.push(chunk@));
            assert(byte_views(out@) + chunks_of(data@.skip(cursor + size), size as nat)
                =~= before + chunks_of(rest, size as nat));
        }
        cursor += size;
    }
    assert(byte_views(out@) =~= chunks_of(data@, size as nat));
    out
}

/// The parts one after the other, told from the front.
pub proof fn lemma_joined_front(parts: Seq<Seq<u8>>)
    requires
        parts.len() > 0,
    ensures
        joined(parts) == parts[0] + joined(parts.drop_first()),
    decreases parts.len(),
{
    if parts.len() == 1 {
        assert(parts.drop_first() =~= Seq::<Seq<u8>>::empty());
        assert(parts.drop_last() =~= Seq::<Seq<u8>>::empty());
        assert(joined(parts) =~= parts[0] + joined(parts.drop_first()));
    } else {
        lemma_joined_front(parts.drop_last());
        assert(parts.drop_last().drop_first() =~= parts.drop_first().drop_last());
        assert(parts.drop_first().last() == parts.last());
        assert(joined(parts) =~= parts[0] + joined(parts.drop_first()));
    }
}

/// Parts of one positive size, joined, fill their bytes exactly and are
/// split into the same parts again.
pub proof fn lemma_chunks_of_joined(parts: Seq<Seq<u8>>, size: nat)
    requires
        size > 0,
        forall|i: int| 0 <= i < parts.len() ==> (#[trigger] parts[i]).len() == size,
    ensures
        chunks_of(joined(parts), size) == parts,
        joined(parts).len() % size == 0,
    decreases parts.len(),
{
    if parts.len() == 0 {
        assert(chunks_of(joined(parts), size) =~= parts);
    } else {
        let rest = parts.drop_first();
        assert forall|i: int| 0 <= i < rest.len() implies (#[trigger] rest[i]).len() == size by {
            assert(rest[i] == parts[i + 1]);
        }
        lemma_chunks_of_joined(rest, size);
        lemma_joined_front(parts);
        let data = joined(parts);
        assert(data.subrange(0, size as int) =~= parts[0]);
        assert(data.skip(size as int) =~= joined(rest));
        assert(chunks_of(data, size) =~= parts);
        vstd::arithmetic::div_mod::lemma_mod_add_multiples_vanish(
            joined(rest).len() as int,
            size as int,
        );
    }
}

} // verus!
