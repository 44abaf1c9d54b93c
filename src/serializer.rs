//! The on-disk encoding of primes: each value as eight bytes, least
//! significant first.
use vstd::prelude::*;
use vstd::arithmetic::div_mod::{lemma_fundamental_div_mod, lemma_mod_breakdown};

verus! {

/// The number of bytes of one encoded value.
pub const SIZE: usize = 8;

/// `256^k`.
pub open spec fn pow256(k: nat) -> nat
    decreases k,
{
    if k == 0 {
        1
    } else {
        256 * pow256((k - 1) as nat)
    }
}

/// The `k` lowest base-256 digits of `n`, least significant first.
pub open spec fn digits(n: nat, k: nat) -> Seq<u8>
    decreases k,
{
    if k == 0 {
        Seq::empty()
    } else {
        seq![(n % 256) as u8] + digits(n / 256, (k - 1) as nat)
    }
}

/// The encoding of `n`.
pub open spec fn le_bytes(n: u64) -> Seq<u8> {
    digits(n as nat, 8)
}

/// The value of `b` read as base-256 digits, least significant first.
pub open spec fn le_value(b: Seq<u8>) -> nat
    decreases b.len(),
{
    if b.len() == 0 {
        0
    } else {
        b[0] as nat + 256 * le_value(b.drop_first())
    }
}

/// The value encoded at word `i` of `b`.
pub open spec fn word_at(b: Seq<u8>, i: int) -> u64 {
    le_value(b.subrange(8 * i, 8 * i + 8)) as u64
}

/// The first `k` words encoded in `b`.
pub open spec fn decode_words(b: Seq<u8>, k: int) -> Seq<u64> {
    Seq::new(k as nat, |i: int| word_at(b, i))
}

/// The encoding of every value of `s`, in order.
pub open spec fn encode_all(s: Seq<u64>) -> Seq<u8>
    decreases s.len(),
{
    if s.len() == 0 {
        Seq::empty()
    } else {
        encode_all(s.drop_last()) + le_bytes(s.last())
    }
}

proof fn lemma_pow256_8()
    ensures
        pow256(8) == 0x1_0000_0000_0000_0000,
{
    reveal_with_fuel(pow256, 9);
}

proof fn lemma_pow256_pos(k: nat)
    ensures
        pow256(k) >= 1,
    decreases k,
{
    if k > 0 {
        lemma_pow256_pos((k - 1) as nat);
    }
}

proof fn lemma_le_value_bound(b: Seq<u8>)
    ensures
        le_value(b) < pow256(b.len()),
    decreases b.len(),
{
    if b.len() > 0 {
        lemma_le_value_bound(b.drop_first());
    }
}

proof fn lemma_digits_len(n: nat, k: nat)
    ensures
        digits(n, k).len() == k,
    decreases k,
{
    if k > 0 {
        lemma_digits_len(n / 256, (k - 1) as nat);
    }
}

/// Reading back the `k` digits of `n` gives `n` modulo `256^k`.
proof fn lemma_value_of_digits(n: nat, k: nat)
    ensures
        le_value(digits(n, k)) == n % pow256(k),
    decreases k,
{
    if k > 0 {
        let d = digits(n, k);
        lemma_value_of_digits(n / 256, (k - 1) as nat);
        assert(d.drop_first() =~= digits(n / 256, (k - 1) as nat));
        lemma_pow256_pos((k - 1) as nat);
        lemma_mod_breakdown(n as int, 256, pow256((k - 1) as nat) as int);
    } else {
        assert(n % 1 == 0);
    }
}

/// The digits of the value of `b` are `b`.
proof fn lemma_digits_of_value(b: Seq<u8>)
    ensures
        digits(le_value(b), b.len()) =~= b,
    decreases b.len(),
{
    if b.len() > 0 {
        let v = le_value(b);
        let rest = le_value(b.drop_first());
        lemma_digits_of_value(b.drop_first());
        lemma_fundamental_div_mod(v as int, 256);
        assert(v % 256 == b[0] && v / 256 == rest) by (nonlinear_arith)
            requires
                v == b[0] as nat + 256 * rest,
                v == 256 * (v / 256) + v % 256,
                0 <= v % 256 < 256,
                0 <= b[0] < 256,
        ;
    }
}

/// Decoding the encoding of a value gives the value back.
pub proof fn lemma_decode_encode(n: u64)
    ensures
        le_value(le_bytes(n)) == n,
        le_bytes(n).len() == SIZE,
{
    lemma_value_of_digits(n as nat, 8);
    lemma_pow256_8();
    lemma_digits_len(n as nat, 8);
}

/// Encoding the value of eight bytes gives the bytes back.
pub proof fn lemma_encode_decode(b: Seq<u8>)
    requires
        b.len() == SIZE,
    ensures
        le_value(b) <= u64::MAX,
        le_bytes(le_value(b) as u64) == b,
{
    lemma_le_value_bound(b);
    lemma_pow256_8();
    lemma_digits_of_value(b);
}

/// The eight bytes of `num`, least significant first.
pub fn serialize_u64(num: u64) -> (r: [u8; SIZE])
    ensures
        r@ == le_bytes(num),
{
    let mut arr: [u8; SIZE] = [0u8; SIZE];
    let mut n = num;
    let mut i: usize = 0;
    proof {
        lemma_digits_len(num as nat, 8);
    }
    while i < SIZE
        invariant
            i <= SIZE,
            arr@.len() == SIZE,
            arr@.take(i as int) + digits(n as nat, (SIZE - i) as nat) == digits(num as nat, 8),
        decreases SIZE - i,
    {
        let byte = (n & 255u64) as u8;
        assert(n & 255u64 == n % 256) by (bit_vector);
        assert(n >> 8u64 == n / 256) by (bit_vector);
        let ghost old_arr = arr@;
        let ghost rest = digits(n as nat, (SIZE - i) as nat);
        arr[i] = byte;
        proof {
            assert(rest == seq![byte] + digits(n as nat / 256, (SIZE - i - 1) as nat));
            assert(arr@.take(i + 1) =~= old_arr.take(i as int) + seq![byte]);
            assert(arr@.take(i + 1) + digits(n as nat / 256, (SIZE - i - 1) as nat)
                =~= old_arr.take(i as int) + rest);
        }
        n = n >> 8;
        i = i + 1;
    }
    assert(arr@.take(SIZE as int) =~= arr@);
    arr
}

/// The value of eight bytes, least significant first.
pub fn deserialize_u64(arr: [u8; SIZE]) -> (r: u64)
    ensures
        r == le_value(arr@),
{
    let mut num: u64 = 0;
    let mut i: usize = SIZE;
    while i > 0
        invariant
            i <= SIZE,
            arr@.len() == SIZE,
            num == le_value(arr@.subrange(i as int, SIZE as int)),
        decreases i,
    {
        let ghost tail = arr@.subrange(i as int, SIZE as int);
        proof {
            lemma_le_value_bound(tail);
            assert(pow256(tail.len()) * 256 == pow256(tail.len() + 1));
            assert(pow256(tail.len() + 1) <= pow256(8)) by {
                reveal_with_fuel(pow256, 9);
            }
            lemma_pow256_8();
        }
        i = i - 1;
        let byte = arr[i];
        proof {
            let longer = arr@.subrange(i as int, SIZE as int);
            assert(longer.drop_first() =~= tail);
            assert(num * 256 + byte < pow256(8)) by (nonlinear_arith)
                requires
                    num < pow256(tail.len()),
                    pow256(tail.len()) * 256 <= pow256(8),
                    byte < 256,
            ;
        }
        num = num * 256 + byte as u64;
    }
    assert(arr@.subrange(0, SIZE as int) =~= arr@);
    num
}

/// The value encoded in the first eight bytes of `vec`.
fn deserialize_chunk(vec: &[u8]) -> (r: u64)
    requires
        vec@.len() >= SIZE,
    ensures
        r == le_value(vec@.subrange(0, SIZE as int)),
{
    let arr: [u8; SIZE] = [vec[0], vec[1], vec[2], vec[3], vec[4], vec[5], vec[6], vec[7]];
    assert(arr@ =~= vec@.subrange(0, SIZE as int));
    deserialize_u64(arr)
}

/// The `read / 8` whole values encoded at the start of `buf`; a trailing
/// partial word is ignored.
pub fn deserialize_buf(buf: &[u8], read: usize) -> (r: Vec<u64>)
    requires
        read / 8 * 8 <= buf@.len(),
    ensures
        r@ == decode_words(buf@, (read / 8) as int),
{
    let no_primes = read / 8;
    let mut vec: Vec<u64> = Vec::with_capacity(no_primes);
    let mut i: usize = 0;
    while i < no_primes
        invariant
            no_primes == read / 8,
            no_primes * 8 <= buf@.len(),
            i <= no_primes,
            vec@ =~= decode_words(buf@, i as int),
        decreases no_primes - i,
    {
        assert(i * 8 + 8 <= no_primes * 8) by (nonlinear_arith)
            requires
                i < no_primes,
        ;
        let chunk = &buf[i * 8..i * 8 + 8];
        let word = deserialize_chunk(chunk);
        proof {
            lemma_le_value_bound(chunk@.subrange(0, SIZE as int));
            lemma_pow256_8();
            assert(chunk@.subrange(0, SIZE as int) =~= buf@.subrange(8 * i, 8 * i + 8));
        }
        vec.push(word);
        i = i + 1;
    }
    vec
}

/// Appends to `out_vec` the `read / 8` whole values encoded at the start of `buf`.
pub fn deserialize_to_vec(buf: &[u8], read: usize, out_vec: &mut Vec<u64>)
    requires
        read / 8 * 8 <= buf@.len(),
    ensures
        final(out_vec)@ == old(out_vec)@ + decode_words(buf@, (read / 8) as int),
{
    let mut vec = deserialize_buf(buf, read);
    out_vec.append(&mut vec);
}

proof fn lemma_encode_all_len(s: Seq<u64>)
    ensures
        encode_all(s).len() == 8 * s.len(),
    decreases s.len(),
{
    if s.len() > 0 {
        lemma_encode_all_len(s.drop_last());
        lemma_digits_len(s.last() as nat, 8);
    }
}

/// Word `i` of the encoding of `s` is the encoding of `s[i]`.
proof fn lemma_encode_all_word(s: Seq<u64>, i: int)
    requires
        0 <= i < s.len(),
    ensures
        encode_all(s).subrange(8 * i, 8 * i + 8) == le_bytes(s[i]),
    decreases s.len(),
{
    let init = s.drop_last();
    lemma_encode_all_len(init);
    lemma_digits_len(s.last() as nat, 8);
    if i < s.len() - 1 {
        lemma_encode_all_word(init, i);
        assert(encode_all(s).subrange(8 * i, 8 * i + 8) =~= encode_all(init).subrange(
            8 * i,
            8 * i + 8,
        ));
    } else {
        assert(encode_all(s).subrange(8 * i, 8 * i + 8) =~= le_bytes(s.last()));
    }
}

/// Decoding the encoding of a list of values gives the list back.
pub proof fn lemma_decode_encode_all(s: Seq<u64>)
    ensures
        encode_all(s).len() == 8 * s.len(),
        decode_words(encode_all(s), s.len() as int) == s,
{
    lemma_encode_all_len(s);
    assert forall|i: int| 0 <= i < s.len() implies #[trigger] word_at(encode_all(s), i) == s[i] by {
        lemma_encode_all_word(s, i);
        lemma_decode_encode(s[i]);
    }
    assert(decode_words(encode_all(s), s.len() as int) =~= s);
}

/// The encoding of every prime of `primes`, in order, as stored on disk.
pub fn serialize_primes(primes: &Vec<u64>) -> (r: Vec<u8>)
    ensures
        r@ == encode_all(primes@),
{
    let mut out: Vec<u8> = Vec::new();
    let mut i: usize = 0;
    while i < primes.len()
        invariant
            i <= primes.len(),
            out@ == encode_all(primes@.take(i as int)),
        decreases primes.len() - i,
    {
        let arr = serialize_u64(primes[i]);
        proof {
            lemma_digits_len(primes@[i as int] as nat, 8);
        }
        let ghost before = out@;
        let mut j: usize = 0;
        while j < SIZE
            invariant
                j <= SIZE,
                arr@.len() == SIZE,
                out@ == before + arr@.take(j as int),
            decreases SIZE - j,
        {
            out.push(arr[j]);
            assert(arr@.take(j + 1) =~= arr@.take(j as int).push(arr@[j as int]));
            j = j + 1;
        }
        proof {
            let t = primes@.take(i + 1);
            assert(t.drop_last() =~= primes@.take(i as int));
            assert(arr@.take(SIZE as int) =~= arr@);
        }
        i = i + 1;
    }
    assert(primes@.take(primes.len() as int) =~= primes@);
    out
}

/// How many bytes of a read of `read` bytes still belong to a page that
/// already holds `read_total` of its `page_size` bytes.
pub fn bytes_for_page(read_total: usize, read: usize, page_size: usize) -> (r: usize)
    requires
        read_total < page_size,
    ensures
        r == if read <= page_size - read_total {
            read
        } else {
            (page_size - read_total) as usize
        },
{
    let room = page_size - read_total;
    if read <= room {
        read
    } else {
        room
    }
}

} // verus!
