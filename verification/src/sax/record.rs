//! Values with a layout: what they are written as, and what bytes are read as.
//!
//! Numbers are little-endian. A string of bytes and a list are preceded by their length, in four
//! bytes. The parts of a record follow one another without padding.

use vstd::prelude::*;

use super::checkpoint::CheckpointError;

verus! {

/// What stands in `data` from some position on: a value, with the position just behind it, or
/// the reason why there is none.
pub type Decoded<T> = Result<(T, int), CheckpointError>;

/// The bytes `part` stand in `data` from position `at` on.
pub open spec fn stands_at(data: Seq<u8>, at: int, part: Seq<u8>) -> bool {
    &&& 0 <= at
    &&& at + part.len() <= data.len()
    &&& data.subrange(at, at + part.len()) == part
}

/// A value with a layout.
pub trait Record: Sized {
    /// Every string of bytes in the value is short enough for its length to be written.
    spec fn fits(self) -> bool;

    /// Every list in the value is short enough for its length to be written in full.
    spec fn countable(self) -> bool;

    /// The value with no token in it referring to a chunk of the document.
    spec fn detached(self) -> Self;

    /// The bytes that the value is written as.
    spec fn encoding(self) -> Seq<u8>;

    /// The bytes that are written of the value: all of them, or, where some string of bytes is too
    /// long for its length to be written, those in front of the first such string.
    spec fn written(self) -> Seq<u8>;

    /// What the bytes of `data` from `at` on are read as.
    spec fn decoding(data: Seq<u8>, at: int) -> Decoded<Self>;

    /// The position of a reader that has read from `at` on: just behind the value, or where the
    /// reading was given up.
    spec fn stop(data: Seq<u8>, at: int) -> int;

    /// Every absent text that is read from `at` on is marked as it would be written.
    spec fn canonical(data: Seq<u8>, at: int) -> bool;

    /// What a token refers to in a chunk of the document is not written, and does not decide
    /// whether the value can be written.
    proof fn lemma_detached(self)
        ensures
            self.detached().fits() == self.fits(),
            self.detached().countable() == self.countable(),
            self.detached().encoding() == self.encoding(),
            self.detached().written() == self.written(),
    ;

    /// What was written is read back, whatever stands before and behind it.
    proof fn lemma_round_trip(self, data: Seq<u8>, at: int)
        requires
            self.fits(),
            self.countable(),
            stands_at(data, at, self.encoding()),
        ensures
            Self::decoding(data, at) == Ok::<(Self, int), CheckpointError>(
                (self.detached(), at + self.encoding().len()),
            ),
    ;

    /// A reader never steps back. What was read can be written, takes as many bytes as were read,
    /// and takes the same bytes where absent texts are marked as they would be written.
    proof fn lemma_decoded(data: Seq<u8>, at: int)
        requires
            0 <= at <= data.len(),
        ensures
            at <= Self::stop(data, at) <= data.len(),
            Self::decoding(data, at) matches Ok((value, end)) ==> {
                &&& at <= end <= data.len()
                &&& Self::stop(data, at) == end
                &&& value.fits()
                &&& value.countable()
                &&& value.detached() == value
                &&& value.encoding().len() == end - at
                &&& Self::canonical(data, at) ==> value.encoding() == data.subrange(at, end)
            },
    ;

    /// What is read from the first `n` bytes is what is read from all of them, unless the value
    /// is cut off.
    proof fn lemma_prefix(data: Seq<u8>, n: int, at: int)
        requires
            0 <= at <= n <= data.len(),
        ensures
            Self::decoding(data.take(n), at) == Self::decoding(data, at) || Self::decoding(
                data.take(n),
                at,
            ) == Err::<(Self, int), CheckpointError>(CheckpointError::Truncated),
    ;
}

/// Two parts that follow one another stand each in its place.
pub proof fn lemma_stands_apart(data: Seq<u8>, at: int, first: Seq<u8>, second: Seq<u8>)
    requires
        stands_at(data, at, first + second),
    ensures
        stands_at(data, at, first),
        stands_at(data, at + first.len(), second),
{
    let whole = data.subrange(at, at + (first + second).len());
    assert(data.subrange(at, at + first.len()) =~= whole.take(first.len() as int));
    assert(whole.take(first.len() as int) =~= first);
    assert(data.subrange(at + first.len(), at + first.len() + second.len()) =~= whole.skip(
        first.len() as int,
    ));
    assert(whole.skip(first.len() as int) =~= second);
}

/// Two ranges that follow one another make up one range.
proof fn lemma_joined(data: Seq<u8>, from: int, middle: int, to: int)
    requires
        0 <= from <= middle <= to <= data.len(),
    ensures
        data.subrange(from, middle) + data.subrange(middle, to) == data.subrange(from, to),
{
    assert(data.subrange(from, middle) + data.subrange(middle, to) =~= data.subrange(from, to));
}

impl Record for u8 {
    open spec fn fits(self) -> bool {
        true
    }

    open spec fn countable(self) -> bool {
        true
    }

    open spec fn detached(self) -> u8 {
        self
    }

    open spec fn encoding(self) -> Seq<u8> {
        seq![self]
    }

    open spec fn written(self) -> Seq<u8> {
        self.encoding()
    }

    open spec fn decoding(data: Seq<u8>, at: int) -> Decoded<u8> {
        if at + 1 <= data.len() {
            Ok((data[at], at + 1))
        } else {
            Err(CheckpointError::Truncated)
        }
    }

    open spec fn stop(data: Seq<u8>, at: int) -> int {
        if at + 1 <= data.len() {
            at + 1
        } else {
            at
        }
    }

    open spec fn canonical(data: Seq<u8>, at: int) -> bool {
        true
    }

    proof fn lemma_detached(self) {
    }

    proof fn lemma_round_trip(self, data: Seq<u8>, at: int) {
        assert(data.subrange(at, at + 1)[0] == self.encoding()[0]);
    }

    proof fn lemma_decoded(data: Seq<u8>, at: int) {
        if at + 1 <= data.len() {
            assert(data.subrange(at, at + 1) =~= seq![data[at]]);
        }
    }

    proof fn lemma_prefix(data: Seq<u8>, n: int, at: int) {
    }
}

/// A byte that is 0 or 1.
impl Record for bool {
    open spec fn fits(self) -> bool {
        true
    }

    open spec fn countable(self) -> bool {
        true
    }

    open spec fn detached(self) -> bool {
        self
    }

    open spec fn encoding(self) -> Seq<u8> {
        seq![if self { 1u8 } else { 0u8 }]
    }

    open spec fn written(self) -> Seq<u8> {
        self.encoding()
    }

    open spec fn decoding(data: Seq<u8>, at: int) -> Decoded<bool> {
        if at + 1 <= data.len() && data[at] <= 1 {
            Ok((data[at] == 1, at + 1))
        } else {
            Err(CheckpointError::Truncated)
        }
    }

    open spec fn stop(data: Seq<u8>, at: int) -> int {
        if at + 1 <= data.len() {
            at + 1
        } else {
            at
        }
    }

    open spec fn canonical(data: Seq<u8>, at: int) -> bool {
        true
    }

    proof fn lemma_detached(self) {
    }

    proof fn lemma_round_trip(self, data: Seq<u8>, at: int) {
        assert(data.subrange(at, at + 1)[0] == self.encoding()[0]);
    }

    proof fn lemma_decoded(data: Seq<u8>, at: int) {
        if at + 1 <= data.len() {
            assert(data.subrange(at, at + 1) =~= seq![data[at]]);
        }
    }

    proof fn lemma_prefix(data: Seq<u8>, n: int, at: int) {
    }
}

/// The four bytes of a number, the lowest first.
#[verifier::opaque]
pub open spec fn u32_bytes(x: u32) -> Seq<u8> {
    seq![
        (x % 0x100) as u8,
        (x / 0x100 % 0x100) as u8,
        (x / 0x1_0000 % 0x100) as u8,
        (x / 0x100_0000) as u8,
    ]
}

/// The number that the four bytes from `at` on make up.
pub open spec fn u32_at(data: Seq<u8>, at: int) -> u32 {
    (data[at] + 0x100 * data[at + 1] + 0x1_0000 * data[at + 2] + 0x100_0000 * data[at + 3]) as u32
}

/// The number that the eight bytes from `at` on make up.
pub open spec fn u64_at(data: Seq<u8>, at: int) -> u64 {
    (u32_at(data, at) + 0x1_0000_0000 * u32_at(data, at + 4)) as u64
}

/// A number is made up of its digits to the base 256.
proof fn lemma_number(x: u32)
    ensures
        x == x % 0x100 + 0x100 * (x / 0x100 % 0x100) + 0x1_0000 * (x / 0x1_0000 % 0x100)
            + 0x100_0000 * (x / 0x100_0000),
        x / 0x100_0000 < 0x100,
{
    assert(x / 0x1_0000 == x / 0x100 / 0x100);
    assert(x / 0x100_0000 == x / 0x1_0000 / 0x100);
}

/// Four bytes are the digits, to the base 256, of the number that they make up.
proof fn lemma_digits(b0: u8, b1: u8, b2: u8, b3: u8)
    ensures
        ({
            let x = (b0 + 0x100 * b1 + 0x1_0000 * b2 + 0x100_0000 * b3) as u32;
            x % 0x100 == b0 && x / 0x100 % 0x100 == b1 && x / 0x1_0000 % 0x100 == b2 && x
                / 0x100_0000 == b3
        }),
{
    let x: u32 = (b0 + 0x100 * b1 + 0x1_0000 * b2 + 0x100_0000 * b3) as u32;
    assert(x / 0x100 == b1 + 0x100 * b2 + 0x1_0000 * b3);
    assert(x / 0x1_0000 == b2 + 0x100 * b3);
}

impl Record for u32 {
    open spec fn fits(self) -> bool {
        true
    }

    open spec fn countable(self) -> bool {
        true
    }

    open spec fn detached(self) -> u32 {
        self
    }

    open spec fn encoding(self) -> Seq<u8> {
        u32_bytes(self)
    }

    open spec fn written(self) -> Seq<u8> {
        self.encoding()
    }

    open spec fn decoding(data: Seq<u8>, at: int) -> Decoded<u32> {
        if at + 4 <= data.len() {
            Ok((u32_at(data, at), at + 4))
        } else {
            Err(CheckpointError::Truncated)
        }
    }

    open spec fn stop(data: Seq<u8>, at: int) -> int {
        if at + 4 <= data.len() {
            at + 4
        } else {
            at
        }
    }

    open spec fn canonical(data: Seq<u8>, at: int) -> bool {
        true
    }

    proof fn lemma_detached(self) {
    }

    proof fn lemma_round_trip(self, data: Seq<u8>, at: int) {
        reveal(u32_bytes);
        lemma_number(self);
        let part = data.subrange(at, at + 4);
        assert(part == u32_bytes(self));
        assert(data[at] == part[0] && data[at + 1] == part[1] && data[at + 2] == part[2] && data[at
            + 3] == part[3]);
    }

    proof fn lemma_decoded(data: Seq<u8>, at: int) {
        if at + 4 <= data.len() {
            reveal(u32_bytes);
            lemma_digits(data[at], data[at + 1], data[at + 2], data[at + 3]);
            assert(data.subrange(at, at + 4) =~= u32_at(data, at).encoding());
        }
    }

    proof fn lemma_prefix(data: Seq<u8>, n: int, at: int) {
    }
}

impl Record for u64 {
    open spec fn fits(self) -> bool {
        true
    }

    open spec fn countable(self) -> bool {
        true
    }

    open spec fn detached(self) -> u64 {
        self
    }

    open spec fn encoding(self) -> Seq<u8> {
        ((self % 0x1_0000_0000) as u32).encoding() + ((self / 0x1_0000_0000) as u32).encoding()
    }

    open spec fn written(self) -> Seq<u8> {
        self.encoding()
    }

    open spec fn decoding(data: Seq<u8>, at: int) -> Decoded<u64> {
        if at + 8 <= data.len() {
            Ok((u64_at(data, at), at + 8))
        } else {
            Err(CheckpointError::Truncated)
        }
    }

    open spec fn stop(data: Seq<u8>, at: int) -> int {
        if at + 8 <= data.len() {
            at + 8
        } else {
            at
        }
    }

    open spec fn canonical(data: Seq<u8>, at: int) -> bool {
        true
    }

    proof fn lemma_detached(self) {
    }

    proof fn lemma_round_trip(self, data: Seq<u8>, at: int) {
        reveal(u32_bytes);
        let low = (self % 0x1_0000_0000) as u32;
        let high = (self / 0x1_0000_0000) as u32;
        lemma_stands_apart(data, at, low.encoding(), high.encoding());
        low.lemma_round_trip(data, at);
        high.lemma_round_trip(data, at + 4);
    }

    proof fn lemma_decoded(data: Seq<u8>, at: int) {
        if at + 8 <= data.len() {
            let low = u32_at(data, at);
            let high = u32_at(data, at + 4);
            u32::lemma_decoded(data, at);
            u32::lemma_decoded(data, at + 4);
            lemma_joined(data, at, at + 4, at + 8);
            assert(u64_at(data, at) % 0x1_0000_0000 == low);
            assert(u64_at(data, at) / 0x1_0000_0000 == high);
        }
    }

    proof fn lemma_prefix(data: Seq<u8>, n: int, at: int) {
    }
}

/// Two records, one behind the other.
impl<A: Record, B: Record> Record for (A, B) {
    open spec fn fits(self) -> bool {
        self.0.fits() && self.1.fits()
    }

    open spec fn countable(self) -> bool {
        self.0.countable() && self.1.countable()
    }

    open spec fn detached(self) -> (A, B) {
        (self.0.detached(), self.1.detached())
    }

    open spec fn encoding(self) -> Seq<u8> {
        self.0.encoding() + self.1.encoding()
    }

    open spec fn written(self) -> Seq<u8> {
        if self.0.fits() {
            self.0.encoding() + self.1.written()
        } else {
            self.0.written()
        }
    }

    open spec fn decoding(data: Seq<u8>, at: int) -> Decoded<(A, B)> {
        match A::decoding(data, at) {
            Ok((first, middle)) => match B::decoding(data, middle) {
                Ok((second, end)) => Ok(((first, second), end)),
                Err(error) => Err(error),
            },
            Err(error) => Err(error),
        }
    }

    open spec fn stop(data: Seq<u8>, at: int) -> int {
        match A::decoding(data, at) {
            Ok((_, middle)) => B::stop(data, middle),
            Err(_) => A::stop(data, at),
        }
    }

    open spec fn canonical(data: Seq<u8>, at: int) -> bool {
        &&& A::canonical(data, at)
        &&& A::decoding(data, at) matches Ok((_, middle)) ==> B::canonical(data, middle)
    }

    proof fn lemma_detached(self) {
        self.0.lemma_detached();
        self.1.lemma_detached();
    }

    proof fn lemma_round_trip(self, data: Seq<u8>, at: int) {
        lemma_stands_apart(data, at, self.0.encoding(), self.1.encoding());
        self.0.lemma_round_trip(data, at);
        self.1.lemma_round_trip(data, at + self.0.encoding().len());
    }

    proof fn lemma_decoded(data: Seq<u8>, at: int) {
        A::lemma_decoded(data, at);
        if let Ok((first, middle)) = A::decoding(data, at) {
            B::lemma_decoded(data, middle);
            if let Ok((second, end)) = B::decoding(data, middle) {
                lemma_joined(data, at, middle, end);
            }
        }
    }

    proof fn lemma_prefix(data: Seq<u8>, n: int, at: int) {
        A::lemma_prefix(data, n, at);
        A::lemma_decoded(data.take(n), at);
        if let Ok((first, middle)) = A::decoding(data.take(n), at) {
            B::lemma_prefix(data, n, middle);
        }
    }
}

/// To write two records is to write the first and then the second.
pub broadcast proof fn lemma_pair_appended<A: Record, B: Record>(
    written: Seq<u8>,
    first: A,
    second: B,
)
    ensures
        #[trigger] (written + (first, second).encoding()) == written + first.encoding()
            + second.encoding(),
{
    assert(written + (first, second).encoding() =~= written + first.encoding()
        + second.encoding());
}

/// To write two records, as far as they can be written, is to write the first, and then the second
/// where the first was written in full.
pub broadcast proof fn lemma_pair_written<A: Record, B: Record>(
    written: Seq<u8>,
    first: A,
    second: B,
)
    ensures
        #[trigger] (written + (first, second).written()) == (if first.fits() {
            written + first.encoding() + second.written()
        } else {
            written + first.written()
        }),
{
    if first.fits() {
        assert(written + (first, second).written() =~= written + first.encoding()
            + second.written());
    }
}

/// To write eight records is to write one after the other, up to the first that cannot be written.
pub proof fn lemma_eight_appended<
    A: Record,
    B: Record,
    C: Record,
    D: Record,
    E: Record,
    F: Record,
    G: Record,
    H: Record,
>(written: Seq<u8>, parts: (A, (B, (C, (D, (E, (F, (G, H))))))))
    ensures
        ({
            let (a, (b, (c, (d, (e, (f, (g, h))))))) = parts;
            let after_a = written + a.encoding();
            let after_b = after_a + b.encoding();
            let after_c = after_b + c.encoding();
            let after_d = after_c + d.encoding();
            let after_e = after_d + e.encoding();
            let after_f = after_e + f.encoding();
            let after_g = after_f + g.encoding();
            &&& written + parts.encoding() == after_g + h.encoding()
            &&& written + parts.written() == (if !a.fits() {
                written + a.written()
            } else if !b.fits() {
                after_a + b.written()
            } else if !c.fits() {
                after_b + c.written()
            } else if !d.fits() {
                after_c + d.written()
            } else if !e.fits() {
                after_d + e.written()
            } else if !f.fits() {
                after_e + f.written()
            } else if !g.fits() {
                after_f + g.written()
            } else {
                after_g + h.written()
            })
        }),
{
    broadcast use {lemma_pair_appended, lemma_pair_written};

}

/// A string of bytes, preceded by its length.
pub struct Counted(pub Seq<u8>);

impl Record for Counted {
    open spec fn fits(self) -> bool {
        self.0.len() <= u32::MAX
    }

    open spec fn countable(self) -> bool {
        true
    }

    open spec fn detached(self) -> Counted {
        self
    }

    open spec fn encoding(self) -> Seq<u8> {
        (self.0.len() as u32).encoding() + self.0
    }

    open spec fn written(self) -> Seq<u8> {
        if self.fits() {
            self.encoding()
        } else {
            Seq::empty()
        }
    }

    open spec fn decoding(data: Seq<u8>, at: int) -> Decoded<Counted> {
        match u32::decoding(data, at) {
            Ok((length, from)) => if from + length <= data.len() {
                Ok((Counted(data.subrange(from, from + length)), from + length))
            } else {
                Err(CheckpointError::Truncated)
            },
            Err(error) => Err(error),
        }
    }

    open spec fn stop(data: Seq<u8>, at: int) -> int {
        match u32::decoding(data, at) {
            Ok((length, from)) => if from + length <= data.len() {
                from + length
            } else {
                from
            },
            Err(_) => at,
        }
    }

    open spec fn canonical(data: Seq<u8>, at: int) -> bool {
        true
    }

    proof fn lemma_detached(self) {
    }

    proof fn lemma_round_trip(self, data: Seq<u8>, at: int) {
        reveal(u32_bytes);
        let length = self.0.len() as u32;
        lemma_stands_apart(data, at, length.encoding(), self.0);
        length.lemma_round_trip(data, at);
    }

    proof fn lemma_decoded(data: Seq<u8>, at: int) {
        u32::lemma_decoded(data, at);
        if let Ok((value, end)) = Self::decoding(data, at) {
            lemma_joined(data, at, at + 4, end);
        }
    }

    proof fn lemma_prefix(data: Seq<u8>, n: int, at: int) {
        u32::lemma_prefix(data, n, at);
        if let Ok((value, end)) = Self::decoding(data.take(n), at) {
            assert(data.take(n).subrange(at + 4, end) =~= data.subrange(at + 4, end));
        }
    }
}

/// The encodings of the items of a list, one behind the other.
pub open spec fn items_encoding<T: Record>(items: Seq<T>) -> Seq<u8>
    decreases items.len(),
{
    if items.len() == 0 {
        Seq::empty()
    } else {
        items_encoding(items.drop_last()) + items.last().encoding()
    }
}

/// The bytes that are written of the items of a list, one behind the other.
pub open spec fn items_written<T: Record>(items: Seq<T>) -> Seq<u8>
    decreases items.len(),
{
    if items.len() == 0 {
        Seq::empty()
    } else if items.drop_last().fits() {
        items_encoding(items.drop_last()) + items.last().written()
    } else {
        items_written(items.drop_last())
    }
}

/// What is written of a list whose first item that cannot be written is the one at `i`.
proof fn lemma_items_written<T: Record>(items: Seq<T>, i: int)
    requires
        0 <= i < items.len(),
        forall|j: int| 0 <= j < i ==> #[trigger] items[j].fits(),
        !items[i].fits(),
    ensures
        items_written(items) == items_encoding(items.take(i)) + items[i].written(),
    decreases items.len(),
{
    let front = items.drop_last();
    if i == items.len() - 1 {
        assert(items.take(i) =~= front);
        assert forall|j: int| 0 <= j < front.len() implies #[trigger] front[j].fits() by {
            assert(items[j].fits());
        }
    } else {
        assert forall|j: int| 0 <= j < i implies #[trigger] front[j].fits() by {
            assert(items[j].fits());
        }
        assert(!front[i].fits());
        lemma_items_written(front, i);
        assert(front.take(i) =~= items.take(i));
    }
}

/// To write a list as far as it can be written is to write its length and then its items, up to
/// the one at `i`, where that is the first that cannot be written.
pub proof fn lemma_list_written<T: Record>(written: Seq<u8>, items: Seq<T>, i: int)
    requires
        0 <= i < items.len(),
        forall|j: int| 0 <= j < i ==> #[trigger] items[j].fits(),
        !items[i].fits(),
    ensures
        written + (items.len() as u32).encoding() + items_encoding(items.take(i))
            + items[i].written() == written + items.written(),
{
    lemma_items_written(items, i);
    assert(written + (items.len() as u32).encoding() + items_encoding(items.take(i))
        + items[i].written() =~= written + items.written());
}

/// What tokens refer to in a chunk of the document is not written of a list of them.
proof fn lemma_items_detached<T: Record>(items: Seq<T>)
    ensures
        items.detached().fits() == items.fits(),
        items.detached().countable() == items.countable(),
        items_encoding(items.detached()) == items_encoding(items),
        items_written(items.detached()) == items_written(items),
    decreases items.len(),
{
    let detached = items.detached();
    assert forall|i: int| 0 <= i < items.len() implies detached[i].fits() == items[i].fits()
        && detached[i].countable() == items[i].countable() by {
        items[i].lemma_detached();
    }
    if !items.fits() {
        let i = choose|i: int| 0 <= i < items.len() && !(#[trigger] items[i].fits());
        assert(!detached[i].fits());
    }
    if !detached.fits() {
        let i = choose|i: int| 0 <= i < items.len() && !(#[trigger] detached[i].fits());
        assert(!items[i].fits());
    }
    if items.len() > 0 {
        lemma_items_detached(items.drop_last());
        items.last().lemma_detached();
        assert(detached.drop_last() =~= items.drop_last().detached());
        assert(detached.last() == items.last().detached());
    }
}

/// To write one item more of a list is to append its encoding.
pub proof fn lemma_item_appended<T: Record>(written: Seq<u8>, items: Seq<T>, i: int)
    requires
        0 <= i < items.len(),
    ensures
        written + items_encoding(items.take(i)) + items[i].encoding() == written + items_encoding(
            items.take(i + 1),
        ),
{
    assert(items.take(i + 1).drop_last() =~= items.take(i));
    assert(written + items_encoding(items.take(i)) + items[i].encoding() =~= written
        + items_encoding(items.take(i + 1)));
}

/// To write a list is to write its length and then its items.
pub proof fn lemma_list_appended<T: Record>(written: Seq<u8>, items: Seq<T>)
    ensures
        written + (items.len() as u32).encoding() + items_encoding(items) == written
            + items.encoding(),
        items.take(items.len() as int) == items,
        items_encoding(items.take(0)) == Seq::<u8>::empty(),
{
    assert(written + (items.len() as u32).encoding() + items_encoding(items) =~= written
        + items.encoding());
    assert(items.take(items.len() as int) =~= items);
}

/// What `data` holds from `at` on, read as `n` items one behind the other.
pub open spec fn items_decoding<T: Record>(data: Seq<u8>, at: int, n: nat) -> Decoded<Seq<T>>
    decreases n,
{
    if n == 0 {
        Ok((Seq::empty(), at))
    } else {
        match items_decoding::<T>(data, at, (n - 1) as nat) {
            Ok((items, middle)) => match T::decoding(data, middle) {
                Ok((item, end)) => Ok((items.push(item), end)),
                Err(error) => Err(error),
            },
            Err(error) => Err(error),
        }
    }
}

/// The position of a reader that has read `n` items from `at` on, one behind the other.
pub open spec fn items_stop<T: Record>(data: Seq<u8>, at: int, n: nat) -> int
    decreases n,
{
    if n == 0 {
        at
    } else {
        match items_decoding::<T>(data, at, (n - 1) as nat) {
            Ok((_, middle)) => T::stop(data, middle),
            Err(_) => items_stop::<T>(data, at, (n - 1) as nat),
        }
    }
}

proof fn lemma_items_round_trip<T: Record>(items: Seq<T>, data: Seq<u8>, at: int)
    requires
        forall|i: int| 0 <= i < items.len() ==> #[trigger] items[i].fits(),
        forall|i: int| 0 <= i < items.len() ==> #[trigger] items[i].countable(),
        stands_at(data, at, items_encoding(items)),
    ensures
        items_decoding::<T>(data, at, items.len()) == Ok::<(Seq<T>, int), CheckpointError>(
            (items.map_values(|item: T| item.detached()), at + items_encoding(items).len()),
        ),
    decreases items.len(),
{
    let detached = items.map_values(|item: T| item.detached());
    if items.len() == 0 {
        assert(detached =~= Seq::empty());
    } else {
        let front = items.drop_last();
        lemma_stands_apart(data, at, items_encoding(front), items.last().encoding());
        assert forall|i: int| 0 <= i < front.len() implies #[trigger] front[i].fits() by {
            assert(items[i].fits());
        }
        assert forall|i: int| 0 <= i < front.len() implies #[trigger] front[i].countable() by {
            assert(items[i].countable());
        }
        lemma_items_round_trip(front, data, at);
        let last = items[items.len() - 1];
        assert(last.fits() && last.countable());
        last.lemma_round_trip(data, at + items_encoding(front).len());
        assert(front.map_values(|item: T| item.detached()).push(last.detached()) =~= detached);
    }
}

proof fn lemma_items_decoded<T: Record>(data: Seq<u8>, at: int, n: nat)
    requires
        0 <= at <= data.len(),
    ensures
        at <= items_stop::<T>(data, at, n) <= data.len(),
        items_decoding::<T>(data, at, n) matches Ok((items, end)) ==> {
            &&& at <= end <= data.len()
            &&& items_stop::<T>(data, at, n) == end
            &&& items.len() == n
            &&& forall|i: int|
                0 <= i < items.len() ==> (#[trigger] items[i]).fits() && items[i].countable()
                    && items[i].detached() == items[i]
            &&& items_encoding(items).len() == end - at
            &&& (forall|p: int| #[trigger] T::canonical(data, p)) ==> items_encoding(items)
                == data.subrange(at, end)
        },
    decreases n,
{
    if n == 0 {
        assert(data.subrange(at, at) =~= Seq::empty());
    } else {
        lemma_items_decoded::<T>(data, at, (n - 1) as nat);
        if let Ok((front, middle)) = items_decoding::<T>(data, at, (n - 1) as nat) {
            T::lemma_decoded(data, middle);
            if let Ok((last, end)) = T::decoding(data, middle) {
                let items = front.push(last);
                assert(items.drop_last() =~= front);
                lemma_joined(data, at, middle, end);
                assert forall|i: int| 0 <= i < items.len() implies (#[trigger] items[i]).fits()
                    && items[i].countable() && items[i].detached() == items[i] by {
                    if i < front.len() {
                        assert(items[i] == front[i]);
                    }
                }
                if forall|p: int| #[trigger] T::canonical(data, p) {
                    assert(T::canonical(data, middle));
                }
            }
        }
    }
}

proof fn lemma_items_prefix<T: Record>(data: Seq<u8>, length: int, at: int, n: nat)
    requires
        0 <= at <= length <= data.len(),
    ensures
        items_decoding::<T>(data.take(length), at, n) == items_decoding::<T>(data, at, n)
            || items_decoding::<T>(data.take(length), at, n) == Err::<
            (Seq<T>, int),
            CheckpointError,
        >(CheckpointError::Truncated),
    decreases n,
{
    if n > 0 {
        lemma_items_prefix::<T>(data, length, at, (n - 1) as nat);
        lemma_items_decoded::<T>(data.take(length), at, (n - 1) as nat);
        if let Ok((front, middle)) = items_decoding::<T>(data.take(length), at, (n - 1) as nat) {
            T::lemma_prefix(data, length, middle);
        }
    }
}

/// A list that cannot be read to some item cannot be read to any later one.
pub proof fn lemma_items_refused<T: Record>(data: Seq<u8>, at: int, n: nat, m: nat)
    requires
        n <= m,
        items_decoding::<T>(data, at, n) is Err,
    ensures
        items_decoding::<T>(data, at, m) == items_decoding::<T>(data, at, n),
        items_stop::<T>(data, at, m) == items_stop::<T>(data, at, n),
    decreases m,
{
    if n < m {
        lemma_items_refused::<T>(data, at, n, (m - 1) as nat);
    }
}

/// A list, preceded by its length.
impl<T: Record> Record for Seq<T> {
    open spec fn fits(self) -> bool {
        forall|i: int| 0 <= i < self.len() ==> #[trigger] self[i].fits()
    }

    open spec fn countable(self) -> bool {
        &&& self.len() <= u32::MAX
        &&& forall|i: int| 0 <= i < self.len() ==> #[trigger] self[i].countable()
    }

    open spec fn detached(self) -> Seq<T> {
        self.map_values(|item: T| item.detached())
    }

    open spec fn encoding(self) -> Seq<u8> {
        (self.len() as u32).encoding() + items_encoding(self)
    }

    open spec fn written(self) -> Seq<u8> {
        (self.len() as u32).encoding() + items_written(self)
    }

    open spec fn decoding(data: Seq<u8>, at: int) -> Decoded<Seq<T>> {
        match u32::decoding(data, at) {
            Ok((length, from)) => items_decoding::<T>(data, from, length as nat),
            Err(error) => Err(error),
        }
    }

    open spec fn stop(data: Seq<u8>, at: int) -> int {
        match u32::decoding(data, at) {
            Ok((length, from)) => items_stop::<T>(data, from, length as nat),
            Err(_) => at,
        }
    }

    open spec fn canonical(data: Seq<u8>, at: int) -> bool {
        forall|p: int| #[trigger] T::canonical(data, p)
    }

    proof fn lemma_detached(self) {
        lemma_items_detached(self);
    }

    proof fn lemma_round_trip(self, data: Seq<u8>, at: int) {
        reveal(u32_bytes);
        let length = self.len() as u32;
        lemma_stands_apart(data, at, length.encoding(), items_encoding(self));
        length.lemma_round_trip(data, at);
        lemma_items_round_trip(self, data, at + 4);
    }

    proof fn lemma_decoded(data: Seq<u8>, at: int) {
        u32::lemma_decoded(data, at);
        if let Ok((length, from)) = u32::decoding(data, at) {
            lemma_items_decoded::<T>(data, from, length as nat);
            if let Ok((items, end)) = items_decoding::<T>(data, from, length as nat) {
                lemma_joined(data, at, from, end);
                assert(items.detached() =~= items);
            }
        }
    }

    proof fn lemma_prefix(data: Seq<u8>, n: int, at: int) {
        u32::lemma_prefix(data, n, at);
        if let Ok((length, from)) = u32::decoding(data.take(n), at) {
            lemma_items_prefix::<T>(data, n, from, length as nat);
        }
    }
}

} // verus!
