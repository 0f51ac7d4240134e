//! SSZ primitives: little-endian offsets, variable-length lists with
//! offset tables, two-field containers, and fixed-size element lists.
//!
//! Encodings are specified as functions from mathematical sequences to byte
//! sequences; every decoder is proved to accept exactly the image of its
//! encoder within the declared bounds.

use vstd::prelude::*;
use vstd::bytes::*;
use vstd::slice::*;

use crate::ContentItemDecodeError;

verus! {

/// The four little-endian bytes of an offset.
pub open spec fn le32(n: int) -> Seq<u8> {
    spec_u32_to_le_bytes(n as u32)
}

/// The offset a four-byte little-endian group denotes.
pub open spec fn from_le32(b: Seq<u8>) -> int {
    spec_u32_from_le_bytes(b) as int
}

pub proof fn lemma_le32(n: int)
    requires
        0 <= n < 0x1_0000_0000,
    ensures
        le32(n).len() == 4,
        from_le32(le32(n)) == n,
{
    lemma_auto_spec_u32_to_from_le_bytes();
    assert((n as u32) as int == n);
    assert(spec_u32_to_le_bytes(n as u32).len() == 4);
}

pub proof fn lemma_le32_inv(b: Seq<u8>)
    requires
        b.len() == 4,
    ensures
        0 <= from_le32(b) < 0x1_0000_0000,
        le32(from_le32(b)) == b,
{
    lemma_auto_spec_u32_to_from_le_bytes();
    assert(spec_u32_to_le_bytes(spec_u32_from_le_bytes(b)) == b);
    assert((spec_u32_from_le_bytes(b) as int) as u32 == spec_u32_from_le_bytes(b));
}

/// Reads the four-byte little-endian group at position `i`.
pub fn read_u32_le(buf: &[u8], i: usize) -> (r: u32)
    requires
        i + 4 <= buf@.len(),
    ensures
        r as int == from_le32(buf@.subrange(i as int, i + 4)),
{
    let l = buf.len();
    let s = slice_subrange(buf, i, i + 4);
    u32_from_le_bytes(s)
}

/// Appends the four little-endian bytes of `n`.
pub fn write_u32_le(buf: &mut Vec<u8>, n: u32)
    ensures
        final(buf)@ == old(buf)@ + le32(n as int),
{
    let mut bytes = u32_to_le_bytes(n);
    buf.append(&mut bytes);
}

/// Appends a byte slice to a vector.
pub fn push_bytes(buf: &mut Vec<u8>, b: &[u8])
    ensures
        final(buf)@ == old(buf)@ + b@,
{
    let mut i: usize = 0;
    while i < b.len()
        invariant
            i <= b@.len(),
            buf@ == old(buf)@ + b@.take(i as int),
        decreases b@.len() - i,
    {
        buf.push(b[i]);
        proof {
            assert(old(buf)@ + b@.take(i + 1) =~= (old(buf)@ + b@.take(i as int)).push(b@[i as int]));
        }
        i = i + 1;
    }
    proof {
        assert(b@.take(b@.len() as int) =~= b@);
    }
}

/// Total length of a sequence of byte strings.
pub open spec fn sum_lens(items: Seq<Seq<u8>>) -> int
    decreases items.len(),
{
    if items.len() == 0 {
        0
    } else {
        items[0].len() + sum_lens(items.drop_first())
    }
}

/// Concatenation of a sequence of byte strings.
pub open spec fn concat_all(items: Seq<Seq<u8>>) -> Seq<u8>
    decreases items.len(),
{
    if items.len() == 0 {
        Seq::empty()
    } else {
        items[0] + concat_all(items.drop_first())
    }
}

/// The offset table of a variable-length list: one little-endian offset per
/// item, each pointing at the item's start, the first at `base`.
pub open spec fn offset_table(items: Seq<Seq<u8>>, base: int) -> Seq<u8>
    decreases items.len(),
{
    if items.len() == 0 {
        Seq::empty()
    } else {
        le32(base) + offset_table(items.drop_first(), base + items[0].len())
    }
}

/// SSZ encoding of a list of variable-length items: the offset table, then
/// the concatenated items. An empty list encodes as the empty byte string.
pub open spec fn var_list_enc(items: Seq<Seq<u8>>) -> Seq<u8> {
    if items.len() == 0 {
        Seq::empty()
    } else {
        offset_table(items, 4 * items.len() as int) + concat_all(items)
    }
}

/// The declared bounds of a variable-length list.
pub open spec fn var_items_bounded(items: Seq<Seq<u8>>, max_items: int, max_item_len: int) -> bool {
    &&& items.len() <= max_items
    &&& forall|i: int| 0 <= i < items.len() ==> (#[trigger] items[i]).len() <= max_item_len
}

/// Whether the offsets of a list encoding are representable in four bytes.
pub open spec fn var_list_fits(items: Seq<Seq<u8>>) -> bool {
    4 * items.len() + sum_lens(items) < 0x1_0000_0000
}

/// Whether some bounded, representable list encodes to `b`.
pub open spec fn var_list_decodable(b: Seq<u8>, max_items: int, max_item_len: int) -> bool {
    exists|items: Seq<Seq<u8>>|
        var_items_bounded(items, max_items, max_item_len) && var_list_fits(items)
            && #[trigger] var_list_enc(items) == b
}

pub proof fn lemma_sum_lens_nonneg(items: Seq<Seq<u8>>)
    ensures
        0 <= sum_lens(items),
    decreases items.len(),
{
    if items.len() > 0 {
        lemma_sum_lens_nonneg(items.drop_first());
    }
}

pub proof fn lemma_sum_lens_push(s: Seq<Seq<u8>>, x: Seq<u8>)
    ensures
        sum_lens(s.push(x)) == sum_lens(s) + x.len(),
    decreases s.len(),
{
    reveal_with_fuel(sum_lens, 3);
    if s.len() == 0 {
        assert(s.push(x).drop_first() =~= Seq::<Seq<u8>>::empty());
    } else {
        assert(s.push(x).drop_first() =~= s.drop_first().push(x));
        lemma_sum_lens_push(s.drop_first(), x);
    }
}

pub proof fn lemma_concat_push(s: Seq<Seq<u8>>, x: Seq<u8>)
    ensures
        concat_all(s.push(x)) == concat_all(s) + x,
    decreases s.len(),
{
    reveal_with_fuel(concat_all, 3);
    if s.len() == 0 {
        assert(s.push(x).drop_first() =~= Seq::<Seq<u8>>::empty());
        assert(s.push(x)[0] == x);
        assert(concat_all(s.push(x)) =~= concat_all(s) + x);
    } else {
        let t = s.drop_first();
        assert(s.push(x).drop_first() =~= t.push(x));
        lemma_concat_push(t, x);
        assert(s.push(x)[0] == s[0]);
        assert(concat_all(s.push(x)) == s[0] + concat_all(t.push(x)));
        assert(s[0] + (concat_all(t) + x) =~= (s[0] + concat_all(t)) + x);
    }
}

pub proof fn lemma_offset_table_push(s: Seq<Seq<u8>>, x: Seq<u8>, base: int)
    ensures
        offset_table(s.push(x), base) == offset_table(s, base) + le32(base + sum_lens(s)),
    decreases s.len(),
{
    reveal_with_fuel(offset_table, 3);
    lemma_auto_spec_u32_to_from_le_bytes();
    if s.len() == 0 {
        assert(s.push(x).drop_first() =~= Seq::<Seq<u8>>::empty());
        assert(s.push(x)[0] == x);
        assert(offset_table(s.push(x), base) =~= offset_table(s, base) + le32(base + sum_lens(s)));
    } else {
        let t = s.drop_first();
        assert(s.push(x).drop_first() =~= t.push(x));
        lemma_offset_table_push(t, x, base + s[0].len());
        assert(s.push(x)[0] == s[0]);
        assert(offset_table(s.push(x), base) == le32(base) + offset_table(t.push(x), base + s[0].len()));
        assert(sum_lens(s) == s[0].len() + sum_lens(t));
        assert(le32(base) + (offset_table(t, base + s[0].len()) + le32(base + sum_lens(s))) =~= (le32(
            base,
        ) + offset_table(t, base + s[0].len())) + le32(base + sum_lens(s)));
    }
}

pub proof fn lemma_concat_len(items: Seq<Seq<u8>>)
    ensures
        concat_all(items).len() == sum_lens(items),
    decreases items.len(),
{
    if items.len() > 0 {
        lemma_concat_len(items.drop_first());
    }
}

pub proof fn lemma_offset_table_len(items: Seq<Seq<u8>>, base: int)
    ensures
        offset_table(items, base).len() == 4 * items.len(),
    decreases items.len(),
{
    lemma_auto_spec_u32_to_from_le_bytes();
    if items.len() > 0 {
        lemma_offset_table_len(items.drop_first(), base + items[0].len());
    }
}

/// One step of the prefix sums: taking one more item adds its length.
pub proof fn lemma_sum_take_succ(s: Seq<Seq<u8>>, i: int)
    requires
        0 <= i < s.len(),
    ensures
        sum_lens(s.take(i + 1)) == sum_lens(s.take(i)) + s[i].len(),
{
    assert(s.take(i + 1) =~= s.take(i).push(s[i]));
    lemma_sum_lens_push(s.take(i), s[i]);
}

/// Prefix sums are bounded by the total.
pub proof fn lemma_sum_take_le(s: Seq<Seq<u8>>, i: int)
    requires
        0 <= i <= s.len(),
    ensures
        sum_lens(s.take(i)) <= sum_lens(s),
        0 <= sum_lens(s.take(i)),
    decreases s.len() - i,
{
    lemma_sum_lens_nonneg(s.take(i));
    if i == s.len() {
        assert(s.take(i) =~= s);
    } else {
        lemma_sum_take_succ(s, i);
        lemma_sum_take_le(s, i + 1);
    }
}

/// The `i`-th group of the offset table holds the `i`-th item's offset.
pub proof fn lemma_offset_table_index(s: Seq<Seq<u8>>, base: int, i: int)
    requires
        0 <= i < s.len(),
    ensures
        offset_table(s, base).subrange(4 * i, 4 * i + 4) == le32(base + sum_lens(s.take(i))),
    decreases i,
{
    lemma_auto_spec_u32_to_from_le_bytes();
    lemma_offset_table_len(s, base);
    lemma_offset_table_len(s.drop_first(), base + s[0].len());
    if i == 0 {
        assert(s.take(0) =~= Seq::<Seq<u8>>::empty());
        assert(offset_table(s, base).subrange(0, 4) =~= le32(base));
    } else {
        lemma_offset_table_index(s.drop_first(), base + s[0].len(), i - 1);
        assert(s.take(i).drop_first() =~= s.drop_first().take(i - 1));
        assert(sum_lens(s.take(i)) == s[0].len() + sum_lens(s.drop_first().take(i - 1)));
        assert(offset_table(s, base).subrange(4 * i, 4 * i + 4) =~= offset_table(
            s.drop_first(),
            base + s[0].len(),
        ).subrange(4 * (i - 1), 4 * (i - 1) + 4));
    }
}

/// The `i`-th item sits in the concatenation between its prefix sums.
pub proof fn lemma_concat_index(s: Seq<Seq<u8>>, i: int)
    requires
        0 <= i < s.len(),
    ensures
        0 <= sum_lens(s.take(i)),
        sum_lens(s.take(i)) + s[i].len() == sum_lens(s.take(i + 1)),
        sum_lens(s.take(i + 1)) <= sum_lens(s),
        concat_all(s).subrange(sum_lens(s.take(i)), sum_lens(s.take(i)) + s[i].len()) == s[i],
    decreases i,
{
    lemma_concat_len(s);
    lemma_sum_take_succ(s, i);
    lemma_sum_take_le(s, i + 1);
    lemma_sum_take_le(s, i);
    lemma_concat_len(s.drop_first());
    lemma_sum_lens_nonneg(s.drop_first());
    if i == 0 {
        assert(s.take(0) =~= Seq::<Seq<u8>>::empty());
        assert(concat_all(s).subrange(0, s[0].len() as int) =~= s[0]);
    } else {
        lemma_concat_index(s.drop_first(), i - 1);
        assert(s.take(i).drop_first() =~= s.drop_first().take(i - 1));
        assert(s.take(i + 1).drop_first() =~= s.drop_first().take(i));
        assert(sum_lens(s.take(i)) == s[0].len() + sum_lens(s.drop_first().take(i - 1)));
        let a = sum_lens(s.drop_first().take(i - 1));
        lemma_sum_take_le(s.drop_first(), i - 1);
        assert(concat_all(s).subrange(s[0].len() + a, s[0].len() + a + s[i].len()) =~= concat_all(
            s.drop_first(),
        ).subrange(a, a + s[i].len()));
        assert(s.drop_first()[i - 1] == s[i]);
    }
}


/// Index and length facts for the deep view of a vector of byte vectors.
pub proof fn lemma_vecs_deep_view(items: Seq<Vec<u8>>)
    ensures
        Seq::new(items.len(), |i: int| items[i].deep_view()).len() == items.len(),
        forall|i: int|
            0 <= i < items.len() ==> Seq::new(items.len(), |j: int| items[j].deep_view())[i]
                == items[i]@,
{
    assert forall|i: int| 0 <= i < items.len() implies Seq::new(
        items.len(),
        |j: int| items[j].deep_view(),
    )[i] == items[i]@ by {
        assert(items[i].deep_view() =~= items[i]@);
    }
}

/// Encodes a list of variable-length items, appending to `buf`.
pub fn encode_var_list(items: &Vec<Vec<u8>>, buf: &mut Vec<u8>)
    requires
        var_list_fits(items.deep_view()),
    ensures
        final(buf)@ == old(buf)@ + var_list_enc(items.deep_view()),
{
    let ghost dv = items.deep_view();
    proof {
        lemma_vecs_deep_view(items@);
        assert(dv =~= Seq::new(items@.len(), |i: int| items@[i].deep_view()));
        lemma_sum_lens_nonneg(dv);
    }
    let n = items.len();
    if n == 0 {
        proof {
            assert(old(buf)@ + var_list_enc(dv) =~= buf@);
        }
        return ;
    }
    let mut cur: usize = 4 * n;
    let mut i: usize = 0;
    proof {
        assert(dv.take(0) =~= Seq::<Seq<u8>>::empty());
        assert(buf@ =~= old(buf)@ + offset_table(dv.take(0), 4 * n as int));
    }
    while i < n
        invariant
            i <= n,
            n == dv.len(),
            n == items@.len(),
            dv == items.deep_view(),
            forall|j: int| 0 <= j < n ==> dv[j] == (#[trigger] items@[j])@,
            var_list_fits(dv),
            0 <= sum_lens(dv),
            cur == 4 * n + sum_lens(dv.take(i as int)),
            buf@ == old(buf)@ + offset_table(dv.take(i as int), 4 * n as int),
        decreases n - i,
    {
        proof {
            lemma_sum_take_le(dv, i as int);
            lemma_sum_take_succ(dv, i as int);
            lemma_sum_take_le(dv, i + 1);
            assert(dv.take(i + 1) =~= dv.take(i as int).push(dv[i as int]));
            lemma_offset_table_push(dv.take(i as int), dv[i as int], 4 * n as int);
            assert(cur < 0x1_0000_0000);
            assert((cur as u32) as int == cur as int);
        }
        write_u32_le(buf, cur as u32);
        cur = cur + items[i].len();
        i = i + 1;
    }
    proof {
        assert(dv.take(n as int) =~= dv);
    }
    let mut k: usize = 0;
    proof {
        assert(dv.take(0) =~= Seq::<Seq<u8>>::empty());
        assert(buf@ + concat_all(dv.take(0)) =~= buf@);
    }
    while k < n
        invariant
            k <= n,
            n == dv.len(),
            n == items@.len(),
            dv == items.deep_view(),
            forall|j: int| 0 <= j < n ==> dv[j] == (#[trigger] items@[j])@,
            buf@ == old(buf)@ + offset_table(dv, 4 * n as int) + concat_all(dv.take(k as int)),
        decreases n - k,
    {
        proof {
            assert(dv.take(k + 1) =~= dv.take(k as int).push(dv[k as int]));
            lemma_concat_push(dv.take(k as int), dv[k as int]);
        }
        push_bytes(buf, items[k].as_slice());
        proof {
            assert(old(buf)@ + offset_table(dv, 4 * n as int) + concat_all(dv.take(k as int)) + dv[k
                as int] =~= old(buf)@ + offset_table(dv, 4 * n as int) + (concat_all(dv.take(k as int))
                + dv[k as int]));
        }
        k = k + 1;
    }
    proof {
        assert(dv.take(n as int) =~= dv);
        assert(old(buf)@ + offset_table(dv, 4 * n as int) + concat_all(dv) =~= old(buf)@ + (
        offset_table(dv, 4 * n as int) + concat_all(dv)));
        assert(var_list_enc(dv) == offset_table(dv, 4 * n as int) + concat_all(dv));
    }
}

/// List encodings are injective: equal encodings mean equal items.
pub proof fn lemma_var_list_enc_injective(a: Seq<Seq<u8>>, b: Seq<Seq<u8>>)
    requires
        var_list_fits(a),
        var_list_fits(b),
        var_list_enc(a) == var_list_enc(b),
    ensures
        a == b,
{
    lemma_sum_lens_nonneg(a);
    lemma_sum_lens_nonneg(b);
    lemma_concat_len(a);
    lemma_concat_len(b);
    lemma_offset_table_len(a, 4 * a.len() as int);
    lemma_offset_table_len(b, 4 * b.len() as int);
    let e = var_list_enc(a);
    if a.len() == 0 {
        if b.len() > 0 {
            assert(e.len() == 0 && e.len() >= 4);
        }
        assert(a =~= b);
    } else if b.len() == 0 {
        assert(e.len() == 0 && e.len() >= 4);
        assert(a =~= b);
    } else {
        let na = a.len() as int;
        let nb = b.len() as int;
        lemma_offset_table_index(a, 4 * na, 0);
        lemma_offset_table_index(b, 4 * nb, 0);
        assert(a.take(0) =~= Seq::<Seq<u8>>::empty());
        assert(b.take(0) =~= Seq::<Seq<u8>>::empty());
        assert(e.subrange(0, 4) =~= offset_table(a, 4 * na).subrange(0, 4));
        assert(e.subrange(0, 4) =~= offset_table(b, 4 * nb).subrange(0, 4));
        lemma_le32(4 * na);
        lemma_le32(4 * nb);
        assert(na == nb);
        let n = na;
        assert forall|i: int| 0 <= i < n implies sum_lens(a.take(i)) == sum_lens(b.take(i)) by {
            lemma_offset_table_index(a, 4 * n, i);
            lemma_offset_table_index(b, 4 * n, i);
            lemma_sum_take_le(a, i);
            lemma_sum_take_le(b, i);
            assert(e.subrange(4 * i, 4 * i + 4) =~= offset_table(a, 4 * n).subrange(4 * i, 4 * i + 4));
            assert(e.subrange(4 * i, 4 * i + 4) =~= offset_table(b, 4 * n).subrange(4 * i, 4 * i + 4));
            lemma_le32(4 * n + sum_lens(a.take(i)));
            lemma_le32(4 * n + sum_lens(b.take(i)));
        }
        assert(sum_lens(a) == sum_lens(b)) by {
            assert(e.len() == 4 * n + sum_lens(a));
            assert(e.len() == 4 * n + sum_lens(b));
        }
        let ca = concat_all(a);
        let cb = concat_all(b);
        assert(ca =~= e.subrange(4 * n, e.len() as int));
        assert(cb =~= e.subrange(4 * n, e.len() as int));
        assert forall|i: int| 0 <= i < n implies a[i] == b[i] by {
            lemma_concat_index(a, i);
            lemma_concat_index(b, i);
            lemma_sum_take_succ(a, i);
            lemma_sum_take_succ(b, i);
            if i + 1 < n {
                assert(sum_lens(a.take(i + 1)) == sum_lens(b.take(i + 1)));
            } else {
                assert(a.take(i + 1) =~= a);
                assert(b.take(i + 1) =~= b);
            }
            assert(a[i].len() == b[i].len());
            assert(a[i] == ca.subrange(sum_lens(a.take(i)), sum_lens(a.take(i)) + a[i].len()));
            assert(b[i] == cb.subrange(sum_lens(b.take(i)), sum_lens(b.take(i)) + b[i].len()));
        }
        assert(a =~= b);
    }
}


/// The head group of a nonempty list encoding holds four times the count.
pub proof fn lemma_enc_head(items: Seq<Seq<u8>>)
    requires
        items.len() > 0,
        var_list_fits(items),
    ensures
        var_list_enc(items).len() == 4 * items.len() + sum_lens(items),
        var_list_enc(items).subrange(0, 4) == le32(4 * items.len() as int),
        from_le32(var_list_enc(items).subrange(0, 4)) == 4 * items.len(),
{
    lemma_offset_table_len(items, 4 * items.len() as int);
    lemma_concat_len(items);
    lemma_sum_lens_nonneg(items);
    lemma_offset_table_index(items, 4 * items.len() as int, 0);
    assert(items.take(0) =~= Seq::<Seq<u8>>::empty());
    assert(var_list_enc(items).subrange(0, 4) =~= offset_table(items, 4 * items.len() as int).subrange(
        0,
        4,
    ));
    lemma_le32(4 * items.len() as int);
}

/// The `i`-th offset group of a nonempty list encoding.
pub proof fn lemma_enc_offset(items: Seq<Seq<u8>>, i: int)
    requires
        0 <= i < items.len(),
        var_list_fits(items),
    ensures
        0 <= sum_lens(items.take(i)) <= sum_lens(items),
        var_list_enc(items).subrange(4 * i, 4 * i + 4) == le32(
            4 * items.len() + sum_lens(items.take(i)),
        ),
        from_le32(var_list_enc(items).subrange(4 * i, 4 * i + 4)) == 4 * items.len() + sum_lens(
            items.take(i),
        ),
{
    lemma_offset_table_len(items, 4 * items.len() as int);
    lemma_concat_len(items);
    lemma_sum_lens_nonneg(items);
    lemma_sum_take_le(items, i);
    lemma_offset_table_index(items, 4 * items.len() as int, i);
    assert(var_list_enc(items).subrange(4 * i, 4 * i + 4) =~= offset_table(
        items,
        4 * items.len() as int,
    ).subrange(4 * i, 4 * i + 4));
    lemma_le32(4 * items.len() + sum_lens(items.take(i)));
}

/// The `i`-th item of a nonempty list encoding sits between its offsets.
pub proof fn lemma_enc_item(items: Seq<Seq<u8>>, i: int)
    requires
        0 <= i < items.len(),
        var_list_fits(items),
    ensures
        sum_lens(items.take(i)) + items[i].len() == sum_lens(items.take(i + 1)),
        sum_lens(items.take(i + 1)) <= sum_lens(items),
        var_list_enc(items).subrange(
            4 * items.len() + sum_lens(items.take(i)),
            4 * items.len() + sum_lens(items.take(i)) + items[i].len(),
        ) == items[i],
{
    lemma_offset_table_len(items, 4 * items.len() as int);
    lemma_concat_len(items);
    lemma_concat_index(items, i);
    let s = sum_lens(items.take(i));
    assert(var_list_enc(items).subrange(
        4 * items.len() + s,
        4 * items.len() + s + items[i].len(),
    ) =~= concat_all(items).subrange(s, s + items[i].len()));
}

/// Decodes a list of variable-length items. Accepts exactly the encodings
/// of lists within the declared bounds; rejects an over-claimed count
/// before reading any item.
pub fn decode_var_list(buf: &[u8], max_items: usize, max_item_len: usize) -> (r: Result<
    Vec<Vec<u8>>,
    ContentItemDecodeError,
>)
    ensures
        r matches Ok(v) ==> var_items_bounded(v.deep_view(), max_items as int, max_item_len as int)
            && var_list_enc(v.deep_view()) == buf@,
        var_list_decodable(buf@, max_items as int, max_item_len as int) ==> r is Ok,
        buf@.len() >= 4 && from_le32(buf@.subrange(0, 4)) != 0 && from_le32(buf@.subrange(0, 4)) % 4
            == 0 && from_le32(buf@.subrange(0, 4)) / 4 > max_items ==> r == Err::<
            Vec<Vec<u8>>,
            ContentItemDecodeError,
        >(ContentItemDecodeError::BoundExceeded),
{
    let ghost m = max_items as int;
    let ghost ml = max_item_len as int;
    let l = buf.len();
    if l == 0 {
        let v: Vec<Vec<u8>> = Vec::new();
        proof {
            assert(v.deep_view() =~= Seq::<Seq<u8>>::empty());
            assert(var_list_enc(v.deep_view()) =~= buf@);
        }
        return Ok(v);
    }
    if l < 4 {
        proof {
            if var_list_decodable(buf@, m, ml) {
                let items = choose|items: Seq<Seq<u8>>|
                    var_items_bounded(items, m, ml) && var_list_fits(items) && #[trigger] var_list_enc(
                        items,
                    ) == buf@;
                if items.len() == 0 {
                    assert(var_list_enc(items).len() == 0);
                } else {
                    lemma_enc_head(items);
                    lemma_sum_lens_nonneg(items);
                }
                assert(false);
            }
        }
        return Err(ContentItemDecodeError::InputTruncated);
    }
    let off0u = read_u32_le(buf, 0);
    let ghost head = from_le32(buf@.subrange(0, 4));
    proof {
        lemma_le32_inv(buf@.subrange(0, 4));
    }
    let off0 = off0u as usize;
    if off0 == 0 || off0 % 4 != 0 {
        proof {
            if var_list_decodable(buf@, m, ml) {
                let items = choose|items: Seq<Seq<u8>>|
                    var_items_bounded(items, m, ml) && var_list_fits(items) && #[trigger] var_list_enc(
                        items,
                    ) == buf@;
                assert(items.len() > 0);
                lemma_enc_head(items);
                assert(false);
            }
        }
        return Err(ContentItemDecodeError::InvalidOffset);
    }
    let n = off0 / 4;
    proof {
        assert(off0 == 4 * n);
        assert(n >= 1);
    }
    if n > max_items {
        proof {
            if var_list_decodable(buf@, m, ml) {
                let items = choose|items: Seq<Seq<u8>>|
                    var_items_bounded(items, m, ml) && var_list_fits(items) && #[trigger] var_list_enc(
                        items,
                    ) == buf@;
                assert(items.len() > 0);
                lemma_enc_head(items);
                assert(false);
            }
        }
        return Err(ContentItemDecodeError::BoundExceeded);
    }
    if off0 > l {
        proof {
            if var_list_decodable(buf@, m, ml) {
                let items = choose|items: Seq<Seq<u8>>|
                    var_items_bounded(items, m, ml) && var_list_fits(items) && #[trigger] var_list_enc(
                        items,
                    ) == buf@;
                assert(items.len() > 0);
                lemma_enc_head(items);
                lemma_sum_lens_nonneg(items);
                assert(false);
            }
        }
        return Err(ContentItemDecodeError::InvalidOffset);
    }
    let mut offs: Vec<usize> = Vec::new();
    offs.push(off0);
    let mut i: usize = 1;
    while i < n
        invariant
            1 <= i <= n,
            off0 == 4 * n,
            4 <= off0 <= l,
            l == buf@.len(),
            n <= max_items,
            m == max_items as int,
            ml == max_item_len as int,
            offs@.len() == i,
            offs@[0] == off0,
            forall|j: int| 0 <= j < i ==> (#[trigger] offs@[j]) as int == from_le32(
                buf@.subrange(4 * j, 4 * j + 4),
            ),
            forall|j: int| 0 < j < i ==> offs@[j - 1] <= #[trigger] offs@[j],
            forall|j: int| 0 <= j < i ==> off0 <= #[trigger] offs@[j] <= l,
        decreases n - i,
    {
        let o = read_u32_le(buf, 4 * i) as usize;
        let prev = offs[i - 1];
        if o < prev || o > l {
            proof {
                if var_list_decodable(buf@, m, ml) {
                    let items = choose|items: Seq<Seq<u8>>|
                        var_items_bounded(items, m, ml) && var_list_fits(items)
                            && #[trigger] var_list_enc(items) == buf@;
                    assert(items.len() > 0);
                    lemma_enc_head(items);
                    assert(items.len() == n);
                    lemma_enc_offset(items, i as int);
                    lemma_enc_offset(items, i - 1);
                    lemma_sum_take_succ(items, i - 1);
                    assert(o as int == 4 * n + sum_lens(items.take(i as int)));
                    assert(prev as int == 4 * n + sum_lens(items.take(i - 1)));
                    assert(false);
                }
            }
            return Err(ContentItemDecodeError::InvalidOffset);
        }
        offs.push(o);
        i = i + 1;
    }
    let mut out: Vec<Vec<u8>> = Vec::new();
    let mut k: usize = 0;
    proof {
        assert(out.deep_view() =~= Seq::<Seq<u8>>::empty());
        assert(offset_table(out.deep_view(), off0 as int) =~= buf@.subrange(0, 0));
        assert(concat_all(out.deep_view()) =~= buf@.subrange(off0 as int, off0 as int));
    }
    while k < n
        invariant
            0 <= k <= n,
            off0 == 4 * n,
            4 <= off0 <= l,
            l == buf@.len(),
            n <= max_items,
            m == max_items as int,
            ml == max_item_len as int,
            offs@.len() == n,
            offs@[0] == off0,
            forall|j: int| 0 <= j < n ==> (#[trigger] offs@[j]) as int == from_le32(
                buf@.subrange(4 * j, 4 * j + 4),
            ),
            forall|j: int| 0 < j < n ==> offs@[j - 1] <= #[trigger] offs@[j],
            forall|j: int| 0 <= j < n ==> off0 <= #[trigger] offs@[j] <= l,
            out@.len() == k,
            out.deep_view().len() == k,
            forall|j: int| 0 <= j < k ==> out.deep_view()[j] == (#[trigger] out@[j])@,
            forall|j: int| 0 <= j < k ==> (#[trigger] out.deep_view()[j]).len() <= ml,
            sum_lens(out.deep_view()) == (if k < n { offs@[k as int] as int } else { l as int })
                - off0,
            offset_table(out.deep_view(), off0 as int) == buf@.subrange(0, 4 * k),
            concat_all(out.deep_view()) == buf@.subrange(
                off0 as int,
                (if k < n { offs@[k as int] as int } else { l as int }),
            ),
        decreases n - k,
    {
        let start = offs[k];
        let end = if k + 1 < n {
            offs[k + 1]
        } else {
            l
        };
        proof {
            if k + 1 < n {
                assert(offs@[k as int] <= offs@[k + 1]);
            }
        }
        let chunk = slice_to_vec(slice_subrange(buf, start, end));
        proof {
            assert(chunk.deep_view() =~= chunk@);
        }
        if chunk.len() > max_item_len {
            proof {
                if var_list_decodable(buf@, m, ml) {
                    let items = choose|items: Seq<Seq<u8>>|
                        var_items_bounded(items, m, ml) && var_list_fits(items)
                            && #[trigger] var_list_enc(items) == buf@;
                    assert(items.len() > 0);
                    lemma_enc_head(items);
                    assert(items.len() == n);
                    lemma_enc_offset(items, k as int);
                    lemma_enc_item(items, k as int);
                    assert(start as int == 4 * n + sum_lens(items.take(k as int)));
                    if k + 1 < n {
                        lemma_enc_offset(items, k + 1);
                        lemma_sum_take_succ(items, k as int);
                        assert(end as int == 4 * n + sum_lens(items.take(k + 1)));
                    } else {
                        assert(items.take(k + 1) =~= items);
                        assert(end as int == 4 * n + sum_lens(items.take(k + 1)));
                    }
                    assert(chunk@ == items[k as int]);
                    assert(false);
                }
            }
            return Err(ContentItemDecodeError::BoundExceeded);
        }
        let ghost dv0 = out.deep_view();
        out.push(chunk);
        proof {
            assert(out.deep_view() =~= dv0.push(buf@.subrange(start as int, end as int)));
            lemma_sum_lens_push(dv0, buf@.subrange(start as int, end as int));
            lemma_offset_table_push(dv0, buf@.subrange(start as int, end as int), off0 as int);
            lemma_concat_push(dv0, buf@.subrange(start as int, end as int));
            assert(off0 + sum_lens(dv0) == start as int);
            lemma_le32_inv(buf@.subrange(4 * k, 4 * k + 4));
            assert(le32(start as int) == buf@.subrange(4 * k, 4 * k + 4));
            assert(buf@.subrange(0, 4 * k) + buf@.subrange(4 * k, 4 * k + 4) =~= buf@.subrange(
                0,
                4 * k + 4,
            ));
            assert(buf@.subrange(off0 as int, start as int) + buf@.subrange(start as int, end as int)
                =~= buf@.subrange(off0 as int, end as int));
        }
        k = k + 1;
    }
    proof {
        let dv = out.deep_view();
        assert(dv.len() == n);
        assert(offset_table(dv, off0 as int) == buf@.subrange(0, off0 as int));
        assert(concat_all(dv) == buf@.subrange(off0 as int, l as int));
        assert(var_list_enc(dv) == offset_table(dv, 4 * dv.len() as int) + concat_all(dv));
        assert(buf@.subrange(0, off0 as int) + buf@.subrange(off0 as int, l as int) =~= buf@);
    }
    Ok(out)
}


pub proof fn lemma_le32_len(n: int)
    ensures
        le32(n).len() == 4,
{
    lemma_auto_spec_u32_to_from_le_bytes();
    assert(spec_u32_to_le_bytes(n as u32).len() == 4);
}

/// SSZ encoding of a container of two variable-length fields: two offsets,
/// then the fields. The first offset is always 8.
pub open spec fn container2_enc(f1: Seq<u8>, f2: Seq<u8>) -> Seq<u8> {
    le32(8) + le32(8 + f1.len() as int) + f1 + f2
}

pub proof fn lemma_container2_parts(f1: Seq<u8>, f2: Seq<u8>)
    requires
        8 + f1.len() < 0x1_0000_0000,
    ensures
        container2_enc(f1, f2).len() == 8 + f1.len() + f2.len(),
        from_le32(container2_enc(f1, f2).subrange(0, 4)) == 8,
        from_le32(container2_enc(f1, f2).subrange(4, 8)) == 8 + f1.len(),
        container2_enc(f1, f2).subrange(8, 8 + f1.len() as int) == f1,
        container2_enc(f1, f2).subrange(8 + f1.len() as int, container2_enc(f1, f2).len() as int)
            == f2,
{
    lemma_le32(8);
    lemma_le32(8 + f1.len() as int);
    let e = container2_enc(f1, f2);
    assert(e.subrange(0, 4) =~= le32(8));
    assert(e.subrange(4, 8) =~= le32(8 + f1.len() as int));
    assert(e.subrange(8, 8 + f1.len() as int) =~= f1);
    assert(e.subrange(8 + f1.len() as int, e.len() as int) =~= f2);
}

/// Container encodings are injective in both fields.
pub proof fn lemma_container2_injective(a1: Seq<u8>, a2: Seq<u8>, b1: Seq<u8>, b2: Seq<u8>)
    requires
        8 + a1.len() < 0x1_0000_0000,
        8 + b1.len() < 0x1_0000_0000,
        container2_enc(a1, a2) == container2_enc(b1, b2),
    ensures
        a1 == b1,
        a2 == b2,
{
    lemma_container2_parts(a1, a2);
    lemma_container2_parts(b1, b2);
}

/// Encodes a container of two variable-length fields, appending to `buf`.
pub fn encode_container2(f1: &Vec<u8>, f2: &Vec<u8>, buf: &mut Vec<u8>)
    requires
        8 + f1@.len() < 0x1_0000_0000,
    ensures
        final(buf)@ == old(buf)@ + container2_enc(f1@, f2@),
{
    write_u32_le(buf, 8);
    write_u32_le(buf, (8 + f1.len()) as u32);
    push_bytes(buf, f1.as_slice());
    push_bytes(buf, f2.as_slice());
    proof {
        assert(((8 + f1@.len()) as u32) as int == 8 + f1@.len());
        assert(old(buf)@ + le32(8) + le32(8 + f1@.len() as int) + f1@ + f2@ =~= old(buf)@ + (le32(8)
            + le32(8 + f1@.len() as int) + f1@ + f2@));
    }
}

/// Decodes a container of two variable-length fields. Accepts exactly the
/// container encodings; the first offset must be 8 and the second must stay
/// within the buffer.
pub fn decode_container2(buf: &[u8]) -> (r: Result<(Vec<u8>, Vec<u8>), ContentItemDecodeError>)
    ensures
        r matches Ok(p) ==> buf@ == container2_enc(p.0@, p.1@) && 8 + p.0@.len() < 0x1_0000_0000,
        forall|f1: Seq<u8>, f2: Seq<u8>|
            8 + f1.len() < 0x1_0000_0000 && buf@ == #[trigger] container2_enc(f1, f2) ==> r is Ok,
        buf@.len() < 8 ==> r == Err::<(Vec<u8>, Vec<u8>), ContentItemDecodeError>(
            ContentItemDecodeError::InputTruncated,
        ),
        r is Err ==> (r == Err::<(Vec<u8>, Vec<u8>), ContentItemDecodeError>(
            ContentItemDecodeError::InputTruncated,
        ) || r == Err::<(Vec<u8>, Vec<u8>), ContentItemDecodeError>(
            ContentItemDecodeError::InvalidOffset,
        )),
{
    let l = buf.len();
    if l < 8 {
        proof {
            assert forall|f1: Seq<u8>, f2: Seq<u8>|
                8 + f1.len() < 0x1_0000_0000 && buf@ == #[trigger] container2_enc(f1, f2)
                implies false by {
                lemma_container2_parts(f1, f2);
            }
        }
        return Err(ContentItemDecodeError::InputTruncated);
    }
    let off1 = read_u32_le(buf, 0);
    if off1 != 8 {
        proof {
            assert forall|f1: Seq<u8>, f2: Seq<u8>|
                8 + f1.len() < 0x1_0000_0000 && buf@ == #[trigger] container2_enc(f1, f2)
                implies false by {
                lemma_container2_parts(f1, f2);
            }
        }
        return Err(ContentItemDecodeError::InvalidOffset);
    }
    let off2u = read_u32_le(buf, 4);
    let off2 = off2u as usize;
    if off2 < 8 || off2 > l {
        proof {
            assert forall|f1: Seq<u8>, f2: Seq<u8>|
                8 + f1.len() < 0x1_0000_0000 && buf@ == #[trigger] container2_enc(f1, f2)
                implies false by {
                lemma_container2_parts(f1, f2);
            }
        }
        return Err(ContentItemDecodeError::InvalidOffset);
    }
    let a = slice_to_vec(slice_subrange(buf, 8, off2));
    let b = slice_to_vec(slice_subrange(buf, off2, l));
    proof {
        lemma_le32_inv(buf@.subrange(0, 4));
        lemma_le32_inv(buf@.subrange(4, 8));
        assert(le32(8) == buf@.subrange(0, 4));
        assert(8 + a@.len() == off2 as int);
        assert(le32(8 + a@.len() as int) == buf@.subrange(4, 8));
        assert(container2_enc(a@, b@) =~= buf@.subrange(0, 4) + buf@.subrange(4, 8) + buf@.subrange(
            8,
            off2 as int,
        ) + buf@.subrange(off2 as int, l as int));
        assert(buf@.subrange(0, 4) + buf@.subrange(4, 8) + buf@.subrange(8, off2 as int)
            + buf@.subrange(off2 as int, l as int) =~= buf@);
    }
    Ok((a, b))
}

/// Whether every item has exactly the given fixed length.
pub open spec fn fixed_items_ok(items: Seq<Seq<u8>>, k: int) -> bool {
    forall|i: int| 0 <= i < items.len() ==> (#[trigger] items[i]).len() == k
}

/// Prefix sums of a fixed-length item sequence.
pub proof fn lemma_sum_take_fixed(items: Seq<Seq<u8>>, k: int, i: int)
    requires
        fixed_items_ok(items, k),
        0 <= i <= items.len(),
    ensures
        sum_lens(items.take(i)) == i * k,
    decreases i,
{
    if i == 0 {
        assert(items.take(0) =~= Seq::<Seq<u8>>::empty());
    } else {
        lemma_sum_take_fixed(items, k, i - 1);
        lemma_sum_take_succ(items, i - 1);
        assert(i * k == (i - 1) * k + k) by (nonlinear_arith);
    }
}

/// Concatenations of fixed-length items are injective.
pub proof fn lemma_fixed_concat_injective(a: Seq<Seq<u8>>, b: Seq<Seq<u8>>, k: int)
    requires
        k > 0,
        fixed_items_ok(a, k),
        fixed_items_ok(b, k),
        concat_all(a) == concat_all(b),
    ensures
        a == b,
{
    lemma_concat_len(a);
    lemma_concat_len(b);
    lemma_sum_take_fixed(a, k, a.len() as int);
    lemma_sum_take_fixed(b, k, b.len() as int);
    assert(a.take(a.len() as int) =~= a);
    assert(b.take(b.len() as int) =~= b);
    assert(a.len() == b.len()) by {
        assert(a.len() * k == b.len() * k);
        assert(forall|x: int, y: int, z: int|
            x > 0 && #[trigger] (y * x) == #[trigger] (z * x) ==> y == z) by (nonlinear_arith);
    }
    assert forall|i: int| 0 <= i < a.len() implies a[i] == b[i] by {
        lemma_concat_index(a, i);
        lemma_concat_index(b, i);
        lemma_sum_take_fixed(a, k, i);
        lemma_sum_take_fixed(b, k, i);
    }
    assert(a =~= b);
}

/// Decodes a list of fixed-length items: the buffer must split exactly into
/// items of the given length, and the count must not exceed the bound.
pub fn decode_fixed_list(buf: &[u8], item_len: usize, max_items: usize) -> (r: Result<
    Vec<Vec<u8>>,
    ContentItemDecodeError,
>)
    requires
        item_len > 0,
    ensures
        r matches Ok(v) ==> v@.len() <= max_items && fixed_items_ok(
            v.deep_view(),
            item_len as int,
        ) && concat_all(v.deep_view()) == buf@ && v.deep_view().len() == v@.len(),
        (buf@.len() as int) % (item_len as int) == 0 && (buf@.len() as int) / (item_len as int) <= max_items ==> r
            is Ok,
        (buf@.len() as int) % (item_len as int) != 0 ==> r == Err::<Vec<Vec<u8>>, ContentItemDecodeError>(
            ContentItemDecodeError::InputTruncated,
        ),
        (buf@.len() as int) % (item_len as int) == 0 && (buf@.len() as int) / (item_len as int) > max_items ==> r
            == Err::<Vec<Vec<u8>>, ContentItemDecodeError>(ContentItemDecodeError::BoundExceeded),
{
    let l = buf.len();
    if l % item_len != 0 {
        return Err(ContentItemDecodeError::InputTruncated);
    }
    let n = l / item_len;
    if n > max_items {
        return Err(ContentItemDecodeError::BoundExceeded);
    }
    proof {
        vstd::arithmetic::div_mod::lemma_fundamental_div_mod(l as int, item_len as int);
    }
    let mut out: Vec<Vec<u8>> = Vec::new();
    let mut cur: usize = 0;
    proof {
        assert(out.deep_view() =~= Seq::<Seq<u8>>::empty());
        assert(concat_all(out.deep_view()) =~= buf@.subrange(0, 0));
    }
    while cur < l
        invariant
            0 <= cur <= l,
            l == buf@.len(),
            item_len > 0,
            n <= max_items,
            l == (item_len as int) * (n as int),
            out@.len() * item_len == cur,
            out@.len() <= n,
            out.deep_view().len() == out@.len(),
            forall|j: int| 0 <= j < out@.len() ==> out.deep_view()[j] == (#[trigger] out@[j])@,
            fixed_items_ok(out.deep_view(), item_len as int),
            concat_all(out.deep_view()) == buf@.subrange(0, cur as int),
        decreases l - cur,
    {
        proof {
            vstd::arithmetic::mul::lemma_mul_is_commutative(item_len as int, n as int);
            if out@.len() >= n {
                vstd::arithmetic::mul::lemma_mul_inequality(n as int, out@.len() as int, item_len as int);
                assert(false);
            }
            vstd::arithmetic::mul::lemma_mul_inequality(out@.len() as int + 1, n as int, item_len as int);
            assert((out@.len() + 1) * (item_len as int) == out@.len() * item_len + item_len) by (nonlinear_arith);
            assert(cur + item_len <= l);
        }
        let chunk = slice_to_vec(slice_subrange(buf, cur, cur + item_len));
        let ghost dv0 = out.deep_view();
        proof {
            assert(chunk.deep_view() =~= chunk@);
        }
        out.push(chunk);
        proof {
            assert(out.deep_view() =~= dv0.push(buf@.subrange(cur as int, cur + item_len)));
            lemma_concat_push(dv0, buf@.subrange(cur as int, cur + item_len));
            assert(buf@.subrange(0, cur as int) + buf@.subrange(cur as int, cur + item_len)
                =~= buf@.subrange(0, cur + item_len));
        }
        cur = cur + item_len;
    }
    proof {
        assert(buf@.subrange(0, l as int) =~= buf@);
        assert(out@.len() <= max_items);
    }
    Ok(out)
}

} // verus!
