//! Element-type registry: the supported element kinds, their runtime tags and
//! byte sizes, and the byte-level encoding each kind uses inside the runtime's
//! buffers.

use vstd::prelude::*;
use vstd::pervasive::VecAdditionalExecFns;

verus! {

/// Runtime identifier of an element's binary representation.  The runtime
/// stores one of these (as a numeric code) in every array's metadata; typed
/// access is granted only after the requested type's tag equals the stored
/// one.
#[derive(Clone, Copy, Debug, PartialEq, Eq, Structural)]
pub enum ElemTag {
    Bool,
    I8,
    U8,
    I16,
    U16,
    I32,
    U32,
    I64,
    U64,
    F32,
    F64,
}

/// The numeric code under which the runtime stores each tag.
pub open spec fn tag_code_spec(t: ElemTag) -> int {
    match t {
        ElemTag::Bool => 0,
        ElemTag::I8 => 1,
        ElemTag::U8 => 2,
        ElemTag::I16 => 3,
        ElemTag::U16 => 4,
        ElemTag::I32 => 5,
        ElemTag::U32 => 6,
        ElemTag::I64 => 7,
        ElemTag::U64 => 8,
        ElemTag::F32 => 11,
        ElemTag::F64 => 12,
    }
}

pub fn tag_code(t: ElemTag) -> (r: i32)
    ensures
        r == tag_code_spec(t),
{
    match t {
        ElemTag::Bool => 0,
        ElemTag::I8 => 1,
        ElemTag::U8 => 2,
        ElemTag::I16 => 3,
        ElemTag::U16 => 4,
        ElemTag::I32 => 5,
        ElemTag::U32 => 6,
        ElemTag::I64 => 7,
        ElemTag::U64 => 8,
        ElemTag::F32 => 11,
        ElemTag::F64 => 12,
    }
}

/// The tag-to-code mapping is injective, so comparing codes decides tag
/// equality.
pub proof fn lemma_tag_code_injective(a: ElemTag, b: ElemTag)
    ensures
        tag_code_spec(a) == tag_code_spec(b) ==> a == b,
{
}

/// The tag stored under a numeric code, if the code names one: the inverse
/// of [`tag_code`].
pub fn tag_from_code(code: i32) -> (r: Option<ElemTag>)
    ensures
        match r {
            Some(t) => tag_code_spec(t) == code,
            None => forall|t: ElemTag| tag_code_spec(t) != code,
        },
{
    match code {
        0 => Some(ElemTag::Bool),
        1 => Some(ElemTag::I8),
        2 => Some(ElemTag::U8),
        3 => Some(ElemTag::I16),
        4 => Some(ElemTag::U16),
        5 => Some(ElemTag::I32),
        6 => Some(ElemTag::U32),
        7 => Some(ElemTag::I64),
        8 => Some(ElemTag::U64),
        11 => Some(ElemTag::F32),
        12 => Some(ElemTag::F64),
        _ => None,
    }
}

/// Size in bytes of one element of the tagged kind.
pub open spec fn tag_size_spec(t: ElemTag) -> nat {
    match t {
        ElemTag::Bool => 1,
        ElemTag::I8 => 1,
        ElemTag::U8 => 1,
        ElemTag::I16 => 2,
        ElemTag::U16 => 2,
        ElemTag::I32 => 4,
        ElemTag::U32 => 4,
        ElemTag::I64 => 8,
        ElemTag::U64 => 8,
        ElemTag::F32 => 4,
        ElemTag::F64 => 8,
    }
}

pub fn tag_size(t: ElemTag) -> (r: usize)
    ensures
        r == tag_size_spec(t),
{
    match t {
        ElemTag::Bool => 1,
        ElemTag::I8 => 1,
        ElemTag::U8 => 1,
        ElemTag::I16 => 2,
        ElemTag::U16 => 2,
        ElemTag::I32 => 4,
        ElemTag::U32 => 4,
        ElemTag::I64 => 8,
        ElemTag::U64 => 8,
        ElemTag::F32 => 4,
        ElemTag::F64 => 8,
    }
}

/// 256 to the power `n`: the number of values `n` bytes can hold.
pub open spec fn pow256(n: nat) -> nat
    decreases n,
{
    if n == 0 {
        1
    } else {
        256 * pow256((n - 1) as nat)
    }
}

pub proof fn lemma_pow256_pos(n: nat)
    ensures
        pow256(n) >= 1,
    decreases n,
{
    if n > 0 {
        lemma_pow256_pos((n - 1) as nat);
    }
}

pub proof fn lemma_pow256_values()
    ensures
        pow256(1) == 0x100,
        pow256(2) == 0x10000,
        pow256(4) == 0x100000000,
        pow256(8) == 0x10000000000000000,
{
    assert(pow256(0) == 1);
    assert(pow256(1) == 0x100);
    assert(pow256(2) == 0x10000);
    assert(pow256(3) == 0x1000000);
    assert(pow256(4) == 0x100000000);
    assert(pow256(5) == 0x10000000000);
    assert(pow256(6) == 0x1000000000000);
    assert(pow256(7) == 0x100000000000000);
    assert(pow256(8) == 0x10000000000000000);
}

/// The little-endian byte string of `v` on `n` bytes.
pub open spec fn le_encode(v: nat, n: nat) -> Seq<u8>
    decreases n,
{
    if n == 0 {
        Seq::empty()
    } else {
        seq![(v % 256) as u8] + le_encode(v / 256, (n - 1) as nat)
    }
}

/// The value a little-endian byte string denotes.
pub open spec fn le_decode(b: Seq<u8>) -> nat
    decreases b.len(),
{
    if b.len() == 0 {
        0
    } else {
        b[0] as nat + 256 * le_decode(b.drop_first())
    }
}

pub proof fn lemma_le_encode_len(v: nat, n: nat)
    ensures
        le_encode(v, n).len() == n,
    decreases n,
{
    if n > 0 {
        lemma_le_encode_len(v / 256, (n - 1) as nat);
    }
}

pub proof fn lemma_le_decode_encode(v: nat, n: nat)
    requires
        v < pow256(n),
    ensures
        le_decode(le_encode(v, n)) == v,
    decreases n,
{
    if n > 0 {
        let rest = le_encode(v / 256, (n - 1) as nat);
        lemma_le_encode_len(v / 256, (n - 1) as nat);
        assert((seq![(v % 256) as u8] + rest).drop_first() =~= rest);
        assert(v / 256 < pow256((n - 1) as nat)) by {
            lemma_pow256_pos((n - 1) as nat);
            assert(v < 256 * pow256((n - 1) as nat));
            assert(v / 256 < pow256((n - 1) as nat)) by (nonlinear_arith)
                requires
                    v < 256 * pow256((n - 1) as nat),
            ;
        }
        lemma_le_decode_encode(v / 256, (n - 1) as nat);
        assert(le_decode(le_encode(v, n)) == v % 256 + 256 * (v / 256));
    }
}

pub proof fn lemma_le_decode_zeros(n: nat)
    ensures
        le_decode(Seq::new(n, |i: int| 0u8)) == 0,
    decreases n,
{
    if n > 0 {
        let s = Seq::new(n, |i: int| 0u8);
        assert(s.drop_first() =~= Seq::new((n - 1) as nat, |i: int| 0u8));
        lemma_le_decode_zeros((n - 1) as nat);
    }
}

/// Produce the `n`-byte little-endian form of `v`.
pub fn le_bytes_of(v: u64, n: usize) -> (r: Vec<u8>)
    requires
        (v as nat) < pow256(n as nat),
    ensures
        r@ == le_encode(v as nat, n as nat),
        r@.len() == n,
{
    let mut out: Vec<u8> = Vec::new();
    let mut cur: u64 = v;
    let mut i: usize = 0;
    proof {
        lemma_le_encode_len(v as nat, n as nat);
    }
    while i < n
        invariant
            i <= n,
            (cur as nat) < pow256((n - i) as nat),
            le_encode(v as nat, n as nat) == out@ + le_encode(cur as nat, (n - i) as nat),
            out@.len() == i,
        decreases n - i,
    {
        let b: u8 = (cur % 256) as u8;
        let ghost m = (n - i) as nat;
        let ghost prev = out@;
        out.push(b);
        proof {
            assert(le_encode(cur as nat, m) == seq![b] + le_encode(cur as nat / 256, (m - 1) as nat));
            assert(prev + le_encode(cur as nat, m) =~= out@ + le_encode(cur as nat / 256, (m - 1) as nat));
            lemma_pow256_pos((m - 1) as nat);
            assert(cur as nat / 256 < pow256((m - 1) as nat)) by (nonlinear_arith)
                requires
                    (cur as nat) < 256 * pow256((m - 1) as nat),
            ;
        }
        cur = cur / 256;
        i = i + 1;
    }
    proof {
        assert(le_encode(v as nat, n as nat) =~= out@ + le_encode(cur as nat, 0));
        assert(out@ + Seq::<u8>::empty() =~= out@);
    }
    out
}

/// Read the value of the `n` little-endian bytes of `b` that start at `off`.
pub fn le_read(b: &Vec<u8>, off: usize, n: usize) -> (r: u64)
    requires
        n <= 8,
        off + n <= b@.len(),
    ensures
        r as nat == le_decode(b@.subrange(off as int, off + n)),
        (r as nat) < pow256(n as nat),
{
    proof {
        lemma_pow256_values();
    }
    let len: usize = b.len();
    let mut acc: u64 = 0;
    let mut i: usize = n;
    proof {
        assert(b@.subrange(off + n, off + n) =~= Seq::<u8>::empty());
    }
    while i > 0
        invariant
            i <= n,
            n <= 8,
            off + n <= b@.len(),
            b@.len() == len,
            acc as nat == le_decode(b@.subrange(off + i, off + n)),
            (acc as nat) < pow256((n - i) as nat),
            pow256(8) == 0x10000000000000000,
        decreases i,
    {
        i = i - 1;
        let byte: u8 = b[off + i];
        proof {
            let s = b@.subrange(off + i, off + n);
            assert(s.len() > 0);
            assert(s[0] == b@[off + i]);
            assert(s.drop_first() =~= b@.subrange(off + i + 1, off + n));
            assert(pow256((n - i) as nat) == 256 * pow256((n - i - 1) as nat));
            lemma_pow256_le(((n - i) as nat), 8);
            assert(256 * (acc as nat) + (byte as nat) < 256 * pow256((n - i - 1) as nat)) by (nonlinear_arith)
                requires
                    (acc as nat) < pow256((n - i - 1) as nat),
                    (byte as nat) < 256,
            ;
        }
        acc = acc * 256 + (byte as u64);
    }
    proof {
        assert(b@.subrange(off as int, off + n) =~= b@.subrange(off + 0, off + n));
    }
    acc
}

pub proof fn lemma_pow256_le(a: nat, b: nat)
    requires
        a <= b,
    ensures
        pow256(a) <= pow256(b),
    decreases b,
{
    if a < b && b > 0 {
        lemma_pow256_le(a, (b - 1) as nat);
        lemma_pow256_pos((b - 1) as nat);
    }
}

/// Two's-complement image of a signed value on `n` bytes.
pub open spec fn signed_to_unsigned(v: int, n: nat) -> nat
    recommends
        -(pow256(n) as int) <= 2 * v < pow256(n),
{
    if v >= 0 {
        v as nat
    } else {
        (v + pow256(n)) as nat
    }
}

/// Signed value denoted by an `n`-byte two's-complement image.
pub open spec fn unsigned_to_signed(u: nat, n: nat) -> int
    recommends
        u < pow256(n),
{
    if 2 * u < pow256(n) {
        u as int
    } else {
        u as int - pow256(n)
    }
}

pub proof fn lemma_signed_round(v: int, n: nat)
    requires
        -(pow256(n) as int) <= 2 * v < pow256(n),
    ensures
        signed_to_unsigned(v, n) < pow256(n),
        unsigned_to_signed(signed_to_unsigned(v, n), n) == v,
{
    lemma_pow256_pos(n);
}

/// A static element type the runtime can store: its tag and the bytes that
/// represent each of its values.  The tag-to-type association is one-to-one;
/// every typed view construction checks it before any byte is reinterpreted.
pub trait TypeNum: Copy + Sized {
    /// The runtime tag of this element type.
    spec fn tag_spec() -> ElemTag;

    /// The bytes that represent `v` in a runtime buffer.
    spec fn encode_spec(v: Self) -> Seq<u8>;

    /// The value that the bytes `b` (of this type's size) represent.
    spec fn decode_spec(b: Seq<u8>) -> Self;

    /// The zero value of the type.
    spec fn zero_spec() -> Self;

    proof fn lemma_encode_len(v: Self)
        ensures
            Self::encode_spec(v).len() == tag_size_spec(Self::tag_spec()),
    ;

    proof fn lemma_decode_encode(v: Self)
        ensures
            Self::decode_spec(Self::encode_spec(v)) == v,
    ;

    proof fn lemma_decode_zeros()
        ensures
            Self::decode_spec(Seq::new(tag_size_spec(Self::tag_spec()), |i: int| 0u8))
                == Self::zero_spec(),
    ;

    /// The runtime tag of this element type.
    fn tag() -> (r: ElemTag)
        ensures
            r == Self::tag_spec(),
    ;

    /// The numeric code of this element type's tag.
    fn typenum() -> (r: i32)
        ensures
            r == tag_code_spec(Self::tag_spec()),
    ;

    /// The byte representation of `v`.
    fn to_bytes(v: Self) -> (r: Vec<u8>)
        ensures
            r@ == Self::encode_spec(v),
    ;

    /// Decode the element stored at byte offset `off` of `b`.
    fn read_from(b: &Vec<u8>, off: usize) -> (r: Self)
        requires
            off + tag_size_spec(Self::tag_spec()) <= b@.len(),
        ensures
            r == Self::decode_spec(
                b@.subrange(off as int, off + tag_size_spec(Self::tag_spec())),
            ),
    ;

    /// The zero value of the type.
    fn zero() -> (r: Self)
        ensures
            r == Self::zero_spec(),
    ;
}

/// The concatenated byte representations of a sequence of elements.
pub open spec fn encode_all<T: TypeNum>(elems: Seq<T>) -> Seq<u8>
    decreases elems.len(),
{
    if elems.len() == 0 {
        Seq::empty()
    } else {
        T::encode_spec(elems[0]) + encode_all(elems.drop_first())
    }
}

pub proof fn lemma_encode_all_len<T: TypeNum>(elems: Seq<T>)
    ensures
        encode_all(elems).len() == elems.len() * tag_size_spec(T::tag_spec()),
    decreases elems.len(),
{
    let size = tag_size_spec(T::tag_spec());
    if elems.len() == 0 {
        assert(elems.len() * size == 0) by (nonlinear_arith)
            requires
                elems.len() == 0,
        ;
    } else {
        T::lemma_encode_len(elems[0]);
        lemma_encode_all_len::<T>(elems.drop_first());
        assert(size + (elems.len() - 1) * size == elems.len() * size) by (nonlinear_arith);
    }
}

pub proof fn lemma_encode_all_concat<T: TypeNum>(a: Seq<T>, b: Seq<T>)
    ensures
        encode_all(a + b) == encode_all(a) + encode_all(b),
    decreases a.len(),
{
    if a.len() == 0 {
        assert(a + b =~= b);
        assert(encode_all(a) + encode_all(b) =~= encode_all(b));
    } else {
        assert((a + b)[0] == a[0]);
        assert((a + b).drop_first() =~= a.drop_first() + b);
        lemma_encode_all_concat(a.drop_first(), b);
        assert(T::encode_spec(a[0]) + (encode_all(a.drop_first()) + encode_all(b)) =~= (
        T::encode_spec(a[0]) + encode_all(a.drop_first())) + encode_all(b));
    }
}

/// The bytes of the `k`-th element sit in the `k`-th size-wide chunk.
pub proof fn lemma_encode_all_chunk<T: TypeNum>(elems: Seq<T>, k: int)
    requires
        0 <= k < elems.len(),
    ensures
        encode_all(elems).subrange(
            k * tag_size_spec(T::tag_spec()),
            (k + 1) * tag_size_spec(T::tag_spec()),
        ) == T::encode_spec(elems[k]),
    decreases k,
{
    let size = tag_size_spec(T::tag_spec()) as int;
    let whole = encode_all(elems);
    let head = T::encode_spec(elems[0]);
    let rest = encode_all(elems.drop_first());
    T::lemma_encode_len(elems[0]);
    lemma_encode_all_len::<T>(elems.drop_first());
    lemma_encode_all_len::<T>(elems);
    if k == 0 {
        assert(whole.subrange(0, size) =~= head);
    } else {
        lemma_encode_all_chunk::<T>(elems.drop_first(), k - 1);
        assert((k - 1) * size == k * size - size) by (nonlinear_arith);
        assert(k * size == (k - 1) * size + size);
        assert((k + 1) * size == k * size + size) by (nonlinear_arith);
        assert(k * size >= size) by (nonlinear_arith)
            requires
                k >= 1,
                size >= 0,
        ;
        assert((k + 1) * size <= elems.len() * size) by (nonlinear_arith)
            requires
                k + 1 <= elems.len(),
                size >= 0,
        ;
        assert(whole.subrange(k * size, (k + 1) * size) =~= rest.subrange(
            (k - 1) * size,
            k * size,
        ));
        assert(elems.drop_first()[k - 1] == elems[k]);
    }
}

/// Serialize every element of a slice, in order.
pub fn encode_slice<T: TypeNum>(v: &[T]) -> (r: Vec<u8>)
    ensures
        r@ == encode_all::<T>(v@),
{
    let n = v.len();
    let mut out: Vec<u8> = Vec::new();
    let mut i: usize = 0;
    proof {
        assert(v@.take(0) =~= Seq::<T>::empty());
    }
    while i < n
        invariant
            i <= n,
            n == v@.len(),
            out@ == encode_all::<T>(v@.take(i as int)),
        decreases n - i,
    {
        let ghost prefix = v@.take(i as int);
        let mut bytes = T::to_bytes(v[i]);
        let ghost chunk = bytes@;
        out.append(&mut bytes);
        proof {
            assert(v@.take(i + 1) =~= prefix + seq![v@[i as int]]);
            lemma_encode_all_concat::<T>(prefix, seq![v@[i as int]]);
            assert(seq![v@[i as int]].drop_first() =~= Seq::<T>::empty());
            assert(seq![v@[i as int]][0] == v@[i as int]);
            assert(encode_all::<T>(Seq::<T>::empty()) == Seq::<u8>::empty());
            assert(encode_all::<T>(seq![v@[i as int]]) == T::encode_spec(v@[i as int])
                + Seq::<u8>::empty());
            assert(T::encode_spec(v@[i as int]) + Seq::<u8>::empty() =~= T::encode_spec(
                v@[i as int],
            ));
        }
        i = i + 1;
    }
    proof {
        assert(v@.take(n as int) =~= v@);
    }
    out
}

/// Overwrite `src.len()` bytes of `dst` starting at `off`; the rest keeps its
/// value.
pub fn splice_bytes(dst: &mut Vec<u8>, off: usize, src: &Vec<u8>)
    requires
        off + src@.len() <= old(dst)@.len(),
    ensures
        final(dst)@.len() == old(dst)@.len(),
        final(dst)@ == old(dst)@.take(off as int) + src@ + old(dst)@.skip(off + src@.len()),
        final(dst)@.subrange(off as int, off + src@.len()) == src@,
        forall|j: int|
            0 <= j < old(dst)@.len() && !(off <= j < off + src@.len()) ==> final(dst)@[j] == old(
                dst,
            )@[j],
{
    let n = src.len();
    let dlen: usize = dst.len();
    let mut i: usize = 0;
    while i < n
        invariant
            i <= n,
            n == src@.len(),
            off + n <= dst@.len(),
            dst@.len() == dlen,
            dst@.len() == old(dst)@.len(),
            forall|j: int| 0 <= j < i ==> dst@[off + j] == src@[j],
            forall|j: int|
                0 <= j < old(dst)@.len() && !(off <= j < off + i) ==> dst@[j] == old(dst)@[j],
        decreases n - i,
    {
        dst.set(off + i, src[i]);
        i = i + 1;
    }
    proof {
        assert(dst@ =~= old(dst)@.take(off as int) + src@ + old(dst)@.skip(off + src@.len()));
        assert(dst@.subrange(off as int, off + src@.len()) =~= src@);
    }
}

/// A buffer of `len` zero bytes.
pub fn zero_bytes(len: usize) -> (r: Vec<u8>)
    ensures
        r@ == Seq::new(len as nat, |i: int| 0u8),
{
    let mut out: Vec<u8> = Vec::new();
    let mut i: usize = 0;
    while i < len
        invariant
            i <= len,
            out@.len() == i,
            forall|j: int| 0 <= j < i ==> out@[j] == 0u8,
        decreases len - i,
    {
        out.push(0u8);
        i = i + 1;
    }
    proof {
        assert(out@ =~= Seq::new(len as nat, |i: int| 0u8));
    }
    out
}

impl TypeNum for u8 {
    open spec fn tag_spec() -> ElemTag {
        ElemTag::U8
    }

    open spec fn encode_spec(v: u8) -> Seq<u8> {
        le_encode(v as nat, 1)
    }

    open spec fn decode_spec(b: Seq<u8>) -> u8 {
        le_decode(b) as u8
    }

    open spec fn zero_spec() -> u8 {
        0u8
    }

    proof fn lemma_encode_len(v: u8) {
        lemma_le_encode_len(v as nat, 1);
    }

    proof fn lemma_decode_encode(v: u8) {
        lemma_pow256_values();
        lemma_le_decode_encode(v as nat, 1);
    }

    proof fn lemma_decode_zeros() {
        lemma_le_decode_zeros(1);
    }

    fn tag() -> ElemTag {
        ElemTag::U8
    }

    fn typenum() -> i32 {
        tag_code(ElemTag::U8)
    }

    fn to_bytes(v: u8) -> Vec<u8> {
        proof {
            lemma_pow256_values();
        }
        le_bytes_of(v as u64, 1)
    }

    fn read_from(b: &Vec<u8>, off: usize) -> u8 {
        proof {
            lemma_pow256_values();
        }
        let r = le_read(b, off, 1);
        r as u8
    }

    fn zero() -> u8 {
        0
    }
}

impl TypeNum for u16 {
    open spec fn tag_spec() -> ElemTag {
        ElemTag::U16
    }

    open spec fn encode_spec(v: u16) -> Seq<u8> {
        le_encode(v as nat, 2)
    }

    open spec fn decode_spec(b: Seq<u8>) -> u16 {
        le_decode(b) as u16
    }

    open spec fn zero_spec() -> u16 {
        0u16
    }

    proof fn lemma_encode_len(v: u16) {
        lemma_le_encode_len(v as nat, 2);
    }

    proof fn lemma_decode_encode(v: u16) {
        lemma_pow256_values();
        lemma_le_decode_encode(v as nat, 2);
    }

    proof fn lemma_decode_zeros() {
        lemma_le_decode_zeros(2);
    }

    fn tag() -> ElemTag {
        ElemTag::U16
    }

    fn typenum() -> i32 {
        tag_code(ElemTag::U16)
    }

    fn to_bytes(v: u16) -> Vec<u8> {
        proof {
            lemma_pow256_values();
        }
        le_bytes_of(v as u64, 2)
    }

    fn read_from(b: &Vec<u8>, off: usize) -> u16 {
        proof {
            lemma_pow256_values();
        }
        let r = le_read(b, off, 2);
        r as u16
    }

    fn zero() -> u16 {
        0
    }
}

impl TypeNum for u32 {
    open spec fn tag_spec() -> ElemTag {
        ElemTag::U32
    }

    open spec fn encode_spec(v: u32) -> Seq<u8> {
        le_encode(v as nat, 4)
    }

    open spec fn decode_spec(b: Seq<u8>) -> u32 {
        le_decode(b) as u32
    }

    open spec fn zero_spec() -> u32 {
        0u32
    }

    proof fn lemma_encode_len(v: u32) {
        lemma_le_encode_len(v as nat, 4);
    }

    proof fn lemma_decode_encode(v: u32) {
        lemma_pow256_values();
        lemma_le_decode_encode(v as nat, 4);
    }

    proof fn lemma_decode_zeros() {
        lemma_le_decode_zeros(4);
    }

    fn tag() -> ElemTag {
        ElemTag::U32
    }

    fn typenum() -> i32 {
        tag_code(ElemTag::U32)
    }

    fn to_bytes(v: u32) -> Vec<u8> {
        proof {
            lemma_pow256_values();
        }
        le_bytes_of(v as u64, 4)
    }

    fn read_from(b: &Vec<u8>, off: usize) -> u32 {
        proof {
            lemma_pow256_values();
        }
        let r = le_read(b, off, 4);
        r as u32
    }

    fn zero() -> u32 {
        0
    }
}

impl TypeNum for u64 {
    open spec fn tag_spec() -> ElemTag {
        ElemTag::U64
    }

    open spec fn encode_spec(v: u64) -> Seq<u8> {
        le_encode(v as nat, 8)
    }

    open spec fn decode_spec(b: Seq<u8>) -> u64 {
        le_decode(b) as u64
    }

    open spec fn zero_spec() -> u64 {
        0u64
    }

    proof fn lemma_encode_len(v: u64) {
        lemma_le_encode_len(v as nat, 8);
    }

    proof fn lemma_decode_encode(v: u64) {
        lemma_pow256_values();
        lemma_le_decode_encode(v as nat, 8);
    }

    proof fn lemma_decode_zeros() {
        lemma_le_decode_zeros(8);
    }

    fn tag() -> ElemTag {
        ElemTag::U64
    }

    fn typenum() -> i32 {
        tag_code(ElemTag::U64)
    }

    fn to_bytes(v: u64) -> Vec<u8> {
        proof {
            lemma_pow256_values();
        }
        le_bytes_of(v, 8)
    }

    fn read_from(b: &Vec<u8>, off: usize) -> u64 {
        proof {
            lemma_pow256_values();
        }
        le_read(b, off, 8)
    }

    fn zero() -> u64 {
        0
    }
}

impl TypeNum for i8 {
    open spec fn tag_spec() -> ElemTag {
        ElemTag::I8
    }

    open spec fn encode_spec(v: i8) -> Seq<u8> {
        le_encode(signed_to_unsigned(v as int, 1), 1)
    }

    open spec fn decode_spec(b: Seq<u8>) -> i8 {
        unsigned_to_signed(le_decode(b), 1) as i8
    }

    open spec fn zero_spec() -> i8 {
        0i8
    }

    proof fn lemma_encode_len(v: i8) {
        lemma_le_encode_len(signed_to_unsigned(v as int, 1), 1);
    }

    proof fn lemma_decode_encode(v: i8) {
        lemma_pow256_values();
        lemma_signed_round(v as int, 1);
        lemma_le_decode_encode(signed_to_unsigned(v as int, 1), 1);
    }

    proof fn lemma_decode_zeros() {
        lemma_pow256_values();
        lemma_le_decode_zeros(1);
    }

    fn tag() -> ElemTag {
        ElemTag::I8
    }

    fn typenum() -> i32 {
        tag_code(ElemTag::I8)
    }

    fn to_bytes(v: i8) -> Vec<u8> {
        proof {
            lemma_pow256_values();
        }
        let bits: u64 = if v >= 0 {
            v as u64
        } else {
            (v as i64 + 0x100i64) as u64
        };
        le_bytes_of(bits, 1)
    }

    fn read_from(b: &Vec<u8>, off: usize) -> i8 {
        proof {
            lemma_pow256_values();
        }
        let r = le_read(b, off, 1);
        if r < 0x80u64 {
            r as i8
        } else {
            ((r as i64) - 0x100i64) as i8
        }
    }

    fn zero() -> i8 {
        0
    }
}

impl TypeNum for i16 {
    open spec fn tag_spec() -> ElemTag {
        ElemTag::I16
    }

    open spec fn encode_spec(v: i16) -> Seq<u8> {
        le_encode(signed_to_unsigned(v as int, 2), 2)
    }

    open spec fn decode_spec(b: Seq<u8>) -> i16 {
        unsigned_to_signed(le_decode(b), 2) as i16
    }

    open spec fn zero_spec() -> i16 {
        0i16
    }

    proof fn lemma_encode_len(v: i16) {
        lemma_le_encode_len(signed_to_unsigned(v as int, 2), 2);
    }

    proof fn lemma_decode_encode(v: i16) {
        lemma_pow256_values();
        lemma_signed_round(v as int, 2);
        lemma_le_decode_encode(signed_to_unsigned(v as int, 2), 2);
    }

    proof fn lemma_decode_zeros() {
        lemma_pow256_values();
        lemma_le_decode_zeros(2);
    }

    fn tag() -> ElemTag {
        ElemTag::I16
    }

    fn typenum() -> i32 {
        tag_code(ElemTag::I16)
    }

    fn to_bytes(v: i16) -> Vec<u8> {
        proof {
            lemma_pow256_values();
        }
        let bits: u64 = if v >= 0 {
            v as u64
        } else {
            (v as i64 + 0x10000i64) as u64
        };
        le_bytes_of(bits, 2)
    }

    fn read_from(b: &Vec<u8>, off: usize) -> i16 {
        proof {
            lemma_pow256_values();
        }
        let r = le_read(b, off, 2);
        if r < 0x8000u64 {
            r as i16
        } else {
            ((r as i64) - 0x10000i64) as i16
        }
    }

    fn zero() -> i16 {
        0
    }
}

impl TypeNum for i32 {
    open spec fn tag_spec() -> ElemTag {
        ElemTag::I32
    }

    open spec fn encode_spec(v: i32) -> Seq<u8> {
        le_encode(signed_to_unsigned(v as int, 4), 4)
    }

    open spec fn decode_spec(b: Seq<u8>) -> i32 {
        unsigned_to_signed(le_decode(b), 4) as i32
    }

    open spec fn zero_spec() -> i32 {
        0i32
    }

    proof fn lemma_encode_len(v: i32) {
        lemma_le_encode_len(signed_to_unsigned(v as int, 4), 4);
    }

    proof fn lemma_decode_encode(v: i32) {
        lemma_pow256_values();
        lemma_signed_round(v as int, 4);
        lemma_le_decode_encode(signed_to_unsigned(v as int, 4), 4);
    }

    proof fn lemma_decode_zeros() {
        lemma_pow256_values();
        lemma_le_decode_zeros(4);
    }

    fn tag() -> ElemTag {
        ElemTag::I32
    }

    fn typenum() -> i32 {
        tag_code(ElemTag::I32)
    }

    fn to_bytes(v: i32) -> Vec<u8> {
        proof {
            lemma_pow256_values();
        }
        let bits: u64 = if v >= 0 {
            v as u64
        } else {
            (v as i64 + 0x100000000i64) as u64
        };
        le_bytes_of(bits, 4)
    }

    fn read_from(b: &Vec<u8>, off: usize) -> i32 {
        proof {
            lemma_pow256_values();
        }
        let r = le_read(b, off, 4);
        if r < 0x80000000u64 {
            r as i32
        } else {
            ((r as i64) - 0x100000000i64) as i32
        }
    }

    fn zero() -> i32 {
        0
    }
}

impl TypeNum for i64 {
    open spec fn tag_spec() -> ElemTag {
        ElemTag::I64
    }

    open spec fn encode_spec(v: i64) -> Seq<u8> {
        le_encode(signed_to_unsigned(v as int, 8), 8)
    }

    open spec fn decode_spec(b: Seq<u8>) -> i64 {
        unsigned_to_signed(le_decode(b), 8) as i64
    }

    open spec fn zero_spec() -> i64 {
        0i64
    }

    proof fn lemma_encode_len(v: i64) {
        lemma_le_encode_len(signed_to_unsigned(v as int, 8), 8);
    }

    proof fn lemma_decode_encode(v: i64) {
        lemma_pow256_values();
        lemma_signed_round(v as int, 8);
        lemma_le_decode_encode(signed_to_unsigned(v as int, 8), 8);
    }

    proof fn lemma_decode_zeros() {
        lemma_pow256_values();
        lemma_le_decode_zeros(8);
    }

    fn tag() -> ElemTag {
        ElemTag::I64
    }

    fn typenum() -> i32 {
        tag_code(ElemTag::I64)
    }

    fn to_bytes(v: i64) -> Vec<u8> {
        proof {
            lemma_pow256_values();
        }
        let bits: u64 = if v >= 0 {
            v as u64
        } else {
            ((v + 0x4000000000000000i64 + 0x4000000000000000i64) as u64) + 0x8000000000000000u64
        };
        le_bytes_of(bits, 8)
    }

    fn read_from(b: &Vec<u8>, off: usize) -> i64 {
        proof {
            lemma_pow256_values();
        }
        let r = le_read(b, off, 8);
        if r < 0x8000000000000000u64 {
            r as i64
        } else {
            ((r - 0x8000000000000000u64) as i64) - 0x4000000000000000i64 - 0x4000000000000000i64
        }
    }

    fn zero() -> i64 {
        0
    }
}

impl TypeNum for bool {
    open spec fn tag_spec() -> ElemTag {
        ElemTag::Bool
    }

    open spec fn encode_spec(v: bool) -> Seq<u8> {
        seq![if v { 1u8 } else { 0u8 }]
    }

    open spec fn decode_spec(b: Seq<u8>) -> bool {
        b[0] != 0
    }

    open spec fn zero_spec() -> bool {
        false
    }

    proof fn lemma_encode_len(v: bool) {
    }

    proof fn lemma_decode_encode(v: bool) {
    }

    proof fn lemma_decode_zeros() {
        assert(Seq::new(1, |i: int| 0u8)[0] == 0u8);
    }

    fn tag() -> ElemTag {
        ElemTag::Bool
    }

    fn typenum() -> i32 {
        tag_code(ElemTag::Bool)
    }

    fn to_bytes(v: bool) -> Vec<u8> {
        let mut out: Vec<u8> = Vec::new();
        out.push(if v { 1u8 } else { 0u8 });
        proof {
            assert(out@ =~= Self::encode_spec(v));
        }
        out
    }

    fn read_from(b: &Vec<u8>, off: usize) -> bool {
        let byte: u8 = b[off];
        proof {
            assert(b@.subrange(off as int, off + 1)[0] == b@[off as int]);
        }
        byte != 0
    }

    fn zero() -> bool {
        false
    }
}

} // verus!
