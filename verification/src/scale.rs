//! The SCALE encoding of the integers and length prefixes that signed messages are made of.

use parity_scale_codec::{Compact, Encode};
use vstd::arithmetic::power::{lemma_pow0, lemma_pow1, lemma_pow_adds, pow};
use vstd::prelude::*;

verus! {

/// The `width` little-endian bytes of `n`.
pub open spec fn le_bytes(n: nat, width: nat) -> Seq<u8>
    decreases width,
{
    if width == 0 {
        Seq::empty()
    } else {
        seq![(n % 256) as u8] + le_bytes(n / 256, (width - 1) as nat)
    }
}

/// The compact form of `n`: the two lowest bits of the first byte tell how many bytes follow.
pub open spec fn compact(n: u32) -> Seq<u8> {
    if n < 0x40 {
        le_bytes((4 * n) as nat, 1)
    } else if n < 0x4000 {
        le_bytes((4 * n + 1) as nat, 2)
    } else if n < 0x4000_0000 {
        le_bytes((4 * n + 2) as nat, 4)
    } else {
        seq![3u8] + le_bytes(n as nat, 4)
    }
}

/// All items of a list, one behind the other.
pub open spec fn concat(items: Seq<Seq<u8>>) -> Seq<u8>
    decreases items.len(),
{
    if items.len() == 0 {
        Seq::empty()
    } else {
        concat(items.drop_last()) + items.last()
    }
}

/// The encoding of a list of already encoded items: the compact length, then the items.
pub open spec fn list_bytes(items: Seq<Seq<u8>>) -> Seq<u8> {
    compact(items.len() as u32) + concat(items)
}

/// Calls `parity_scale_codec::Encode::encode` on a `u64`, which is trusted to give the eight
/// little-endian bytes of the number.
#[verifier::external_body]
pub(crate) fn encode_u64(n: u64) -> (bytes: Vec<u8>)
    ensures
        bytes@ == le_bytes(n as nat, 8),
{
    n.encode()
}

/// Calls `parity_scale_codec::Encode::encode` on a `u32`, which is trusted to give the four
/// little-endian bytes of the number.
#[verifier::external_body]
pub(crate) fn encode_u32(n: u32) -> (bytes: Vec<u8>)
    ensures
        bytes@ == le_bytes(n as nat, 4),
{
    n.encode()
}

/// Calls `parity_scale_codec::Encode::encode` on a `parity_scale_codec::Compact<u32>`, which is
/// trusted to give one, two, four or five bytes, by the size of the number.
#[verifier::external_body]
pub(crate) fn encode_compact(n: u32) -> (bytes: Vec<u8>)
    ensures
        bytes@ == compact(n),
{
    Compact(n).encode()
}

/// `width` bytes are as many as they say, and two numbers that fit share them only if equal.
pub proof fn lemma_le_bytes_injective(a: nat, b: nat, width: nat)
    requires
        a < pow(256, width),
        b < pow(256, width),
    ensures
        le_bytes(a, width).len() == width,
        le_bytes(b, width).len() == width,
        le_bytes(a, width) == le_bytes(b, width) ==> a == b,
    decreases width,
{
    if width == 0 {
        lemma_pow0(256);
    } else {
        let rest = (width - 1) as nat;
        lemma_pow_adds(256, 1, rest);
        lemma_pow1(256);
        let p = pow(256, rest);
        assert(pow(256, width) == 256 * p);
        assert(a / 256 < p && b / 256 < p);
        lemma_le_bytes_injective(a / 256, b / 256, rest);
        if le_bytes(a, width) == le_bytes(b, width) {
            assert(le_bytes(a, width)[0] == le_bytes(b, width)[0]);
            assert(a % 256 == b % 256);
            assert(le_bytes(a / 256, rest) =~= le_bytes(a, width).skip(1));
            assert(le_bytes(b / 256, rest) =~= le_bytes(b, width).skip(1));
        }
    }
}

/// Whether no item of one list is the beginning of a different item of the other.
pub open spec fn self_delimiting(a: Seq<Seq<u8>>, b: Seq<Seq<u8>>) -> bool {
    forall|i: int, j: int|
        #![trigger a[i], b[j]]
        0 <= i < a.len() && 0 <= j < b.len() && (a[i].is_prefix_of(b[j]) || b[j].is_prefix_of(a[i]))
            ==> a[i] == b[j]
}

/// The powers that bound indices, sessions and lengths.
pub proof fn lemma_powers()
    ensures
        pow(256, 1) == 0x100,
        pow(256, 2) == 0x1_0000,
        pow(256, 4) == 0x1_0000_0000,
        pow(256, 8) == 0x1_0000_0000_0000_0000,
{
    reveal_with_fuel(pow, 9);
}

/// The first byte of a number is its rest by 256.
pub proof fn lemma_le_bytes_first(n: nat, width: nat)
    requires
        width > 0,
    ensures
        le_bytes(n, width).len() > 0,
        le_bytes(n, width)[0] % 4 == n % 4,
{
    assert((n % 256) % 4 == n % 4) by (nonlinear_arith);
}

/// The compact form of a number can be told from whatever follows it.
pub proof fn lemma_compact_prefix(m: u32, n: u32, x: Seq<u8>, y: Seq<u8>)
    requires
        compact(m) + x == compact(n) + y,
    ensures
        m == n,
        x == y,
{
    lemma_powers();
    lemma_le_bytes_first((4 * m) as nat, 1);
    lemma_le_bytes_first((4 * n) as nat, 1);
    lemma_le_bytes_first((4 * m + 1) as nat, 2);
    lemma_le_bytes_first((4 * n + 1) as nat, 2);
    lemma_le_bytes_first((4 * m + 2) as nat, 4);
    lemma_le_bytes_first((4 * n + 2) as nat, 4);
    let all = compact(m) + x;
    assert(all[0] == compact(m)[0]);
    assert(all[0] == compact(n)[0]);
    if m < 0x40 {
        assert(n < 0x40);
        lemma_le_bytes_injective((4 * m) as nat, (4 * n) as nat, 1);
    } else if m < 0x4000 {
        assert(0x40 <= n < 0x4000);
        lemma_le_bytes_injective((4 * m + 1) as nat, (4 * n + 1) as nat, 2);
    } else if m < 0x4000_0000 {
        assert(0x4000 <= n < 0x4000_0000);
        lemma_le_bytes_injective((4 * m + 2) as nat, (4 * n + 2) as nat, 4);
    } else {
        assert(0x4000_0000 <= n);
        lemma_le_bytes_injective(m as nat, n as nat, 4);
    }
    let k = compact(m).len() as int;
    assert(compact(n).len() == k);
    assert(compact(m) =~= all.take(k));
    assert(compact(n) =~= (compact(n) + y).take(k));
    assert(x =~= all.skip(k));
    assert(y =~= (compact(n) + y).skip(k));
    if m >= 0x4000_0000 {
        assert(le_bytes(m as nat, 4) =~= compact(m).skip(1));
        assert(le_bytes(n as nat, 4) =~= compact(n).skip(1));
    }
}

/// A list begins with its first item.
pub proof fn lemma_concat_first(items: Seq<Seq<u8>>)
    requires
        items.len() > 0,
    ensures
        concat(items) == items[0] + concat(items.skip(1)),
    decreases items.len(),
{
    if items.len() == 1 {
        assert(items.drop_last() =~= Seq::empty());
        assert(items.skip(1) =~= Seq::empty());
        assert(concat(items) =~= items[0] + concat(items.skip(1)));
    } else {
        lemma_concat_first(items.drop_last());
        assert(items.drop_last().skip(1) =~= items.skip(1).drop_last());
        assert(concat(items) =~= items[0] + concat(items.skip(1)));
    }
}

/// Items that delimit themselves can be told apart in a list.
pub proof fn lemma_concat_injective(a: Seq<Seq<u8>>, b: Seq<Seq<u8>>)
    requires
        a.len() == b.len(),
        concat(a) == concat(b),
        self_delimiting(a, b),
    ensures
        a == b,
    decreases a.len(),
{
    if a.len() == 0 {
        assert(a =~= b);
    } else {
        lemma_concat_first(a);
        lemma_concat_first(b);
        let all = concat(a);
        let k = a[0].len();
        let l = b[0].len();
        if k <= l {
            assert(a[0].is_prefix_of(b[0])) by {
                assert(a[0] =~= all.take(k as int));
                assert(b[0].take(k as int) =~= all.take(k as int));
            }
        } else {
            assert(b[0].is_prefix_of(a[0])) by {
                assert(b[0] =~= all.take(l as int));
                assert(a[0].take(l as int) =~= all.take(l as int));
            }
        }
        assert(a[0] == b[0]);
        assert(concat(a.skip(1)) =~= all.skip(k as int));
        assert(concat(b.skip(1)) =~= all.skip(k as int));
        lemma_concat_injective(a.skip(1), b.skip(1));
        assert(a =~= seq![a[0]] + a.skip(1));
        assert(b =~= seq![b[0]] + b.skip(1));
    }
}

/// A number can be read back from its little-endian bytes: byte `i` counts `256^i`.
pub proof fn numbers_are_read_back(n: nat)
    ensures
        n < 0x100 ==> {
            let b = le_bytes(n, 1);
            &&& b.len() == 1
            &&& b[0] == n
        },
        n < 0x1_0000 ==> {
            let b = le_bytes(n, 2);
            &&& b.len() == 2
            &&& b[0] + 0x100 * b[1] == n
        },
        n < 0x1_0000_0000 ==> {
            let b = le_bytes(n, 4);
            &&& b.len() == 4
            &&& b[0] + 0x100 * b[1] + 0x1_0000 * b[2] + 0x100_0000 * b[3] == n
        },
        n < 0x1_0000_0000_0000_0000 ==> {
            let b = le_bytes(n, 8);
            &&& b.len() == 8
            &&& b[0] + 0x100 * b[1] + 0x1_0000 * b[2] + 0x100_0000 * b[3] + 0x1_0000_0000 * b[4]
                + 0x100_0000_0000 * b[5] + 0x1_0000_0000_0000 * b[6] + 0x100_0000_0000_0000 * b[7]
                == n
        },
{
    reveal_with_fuel(le_bytes, 9);
    let n1 = n / 256;
    let n2 = n1 / 256;
    let n3 = n2 / 256;
    let n4 = n3 / 256;
    let n5 = n4 / 256;
    let n6 = n5 / 256;
    let n7 = n6 / 256;
    let n8 = n7 / 256;
    assert(le_bytes(n, 1) =~= seq![(n % 256) as u8]);
    assert(le_bytes(n, 2) =~= seq![(n % 256) as u8, (n1 % 256) as u8]);
    assert(le_bytes(n, 4) =~= seq![
        (n % 256) as u8,
        (n1 % 256) as u8,
        (n2 % 256) as u8,
        (n3 % 256) as u8,
    ]);
    assert(le_bytes(n, 8) =~= seq![
        (n % 256) as u8,
        (n1 % 256) as u8,
        (n2 % 256) as u8,
        (n3 % 256) as u8,
        (n4 % 256) as u8,
        (n5 % 256) as u8,
        (n6 % 256) as u8,
        (n7 % 256) as u8,
    ]);
}

/// A length can be read back from its compact form: the two lowest bits of the first byte tell
/// whether one, two or four bytes hold it, four times over, or four bytes behind a first one.
pub proof fn lengths_are_read_back(n: u32)
    ensures
        ({
            let b = compact(n);
            if n < 0x40 {
                &&& b.len() == 1
                &&& b[0] == 4 * n
            } else if n < 0x4000 {
                &&& b.len() == 2
                &&& b[0] + 0x100 * b[1] == 4 * n + 1
            } else if n < 0x4000_0000 {
                &&& b.len() == 4
                &&& b[0] + 0x100 * b[1] + 0x1_0000 * b[2] + 0x100_0000 * b[3] == 4 * n + 2
            } else {
                &&& b.len() == 5
                &&& b[0] == 3
                &&& b[1] + 0x100 * b[2] + 0x1_0000 * b[3] + 0x100_0000 * b[4] == n
            }
        }),
{
    numbers_are_read_back((4 * n) as nat);
    numbers_are_read_back((4 * n + 1) as nat);
    numbers_are_read_back((4 * n + 2) as nat);
    numbers_are_read_back(n as nat);
}

/// Items stand one behind the other, in their order, with nothing in between.
pub proof fn items_stand_in_order(items: Seq<Seq<u8>>)
    ensures
        concat(items) == items.flatten(),
        forall|i: int|
            0 <= i < items.len() ==> {
                let from = items.take(i).flatten().len() as int;
                &&& from + items[i].len() <= concat(items).len()
                &&& concat(items).subrange(from, from + items[i].len()) == #[trigger] items[i]
            },
    decreases items.len(),
{
    items.lemma_flatten_and_flatten_alt_are_equivalent();
    lemma_concat_is_flatten(items);
    assert forall|i: int| 0 <= i < items.len() implies {
        let from = items.take(i).flatten().len() as int;
        &&& from + items[i].len() <= concat(items).len()
        &&& concat(items).subrange(from, from + items[i].len()) == #[trigger] items[i]
    } by {
        let from = items.take(i).flatten().len() as int;
        if i < items.len() - 1 {
            items_stand_in_order(items.drop_last());
            assert(items.drop_last().take(i) =~= items.take(i));
            assert(items.drop_last()[i] == items[i]);
            assert(concat(items).subrange(from, from + items[i].len()) =~= concat(
                items.drop_last(),
            ).subrange(from, from + items[i].len()));
        } else {
            assert(items.take(i) =~= items.drop_last());
            lemma_concat_is_flatten(items.drop_last());
            assert(concat(items).subrange(from, from + items[i].len()) =~= items[i]);
        }
    }
}

/// Joining from the back is joining from the front.
proof fn lemma_concat_is_flatten(items: Seq<Seq<u8>>)
    ensures
        concat(items) == items.flatten(),
    decreases items.len(),
{
    if items.len() > 0 {
        lemma_concat_is_flatten(items.drop_last());
        items.drop_last().lemma_flatten_push(items.last());
        assert(items.drop_last().push(items.last()) =~= items);
    }
}

} // verus!
