//! Quantized components to hash string: packing of the DC and AC values,
//! the header flags, and the layout of the whole hash.
use vstd::prelude::*;
use vstd::string::*;
use crate::base83::{
    all_base83_symbols, base83_encoding, base83_value, encode_base83, is_base83_symbol,
    lemma_base83_round_trip, pow83,
};

verus! {

/// `v` limited to the closed range `[lo, hi]`.
pub open spec fn clamp_int(v: int, lo: int, hi: int) -> int {
    if v < lo {
        lo
    } else if v > hi {
        hi
    } else {
        v
    }
}

/// The size flag: the component counts `nx` and `ny` packed into one digit.
pub open spec fn size_flag(nx: int, ny: int) -> int {
    (nx - 1) + (ny - 1) * 9
}

/// The AC-scale flag: `0` when there are no AC components, otherwise the
/// floored scale limited to `[0, 82]`.
pub open spec fn scale_flag(ac_count: nat, scale_floor: int) -> int {
    if ac_count == 0 {
        0
    } else {
        clamp_int(scale_floor, 0, 82)
    }
}

/// The DC colour packed as one 24-bit integer.
pub open spec fn dc_value(r: u8, g: u8, b: u8) -> int {
    r * 65536 + g * 256 + b
}

/// Three floored AC levels, each limited to `[0, 18]`, packed in base 19.
pub open spec fn ac_value(levels: (i64, i64, i64)) -> int {
    clamp_int(levels.0 as int, 0, 18) * 361 + clamp_int(levels.1 as int, 0, 18) * 19 + clamp_int(
        levels.2 as int,
        0,
        18,
    )
}

/// The AC components in order, two base-83 symbols each.
pub open spec fn ac_symbols(ac: Seq<(i64, i64, i64)>) -> Seq<char>
    decreases ac.len(),
{
    if ac.len() == 0 {
        Seq::empty()
    } else {
        ac_symbols(ac.drop_last()) + base83_encoding(ac_value(ac.last()) as nat, 2)
    }
}

/// The whole hash: size flag, scale flag, four DC symbols, then two symbols
/// per AC component.
pub open spec fn hash_symbols(
    nx: int,
    ny: int,
    scale_floor: int,
    dc: (u8, u8, u8),
    ac: Seq<(i64, i64, i64)>,
) -> Seq<char> {
    base83_encoding(size_flag(nx, ny) as nat, 1) + base83_encoding(
        scale_flag(ac.len(), scale_floor) as nat,
        1,
    ) + base83_encoding(dc_value(dc.0, dc.1, dc.2) as nat, 4) + ac_symbols(ac)
}

proof fn lemma_ac_symbols_len(ac: Seq<(i64, i64, i64)>)
    ensures
        ac_symbols(ac).len() == 2 * ac.len(),
    decreases ac.len(),
{
    if ac.len() > 0 {
        lemma_ac_symbols_len(ac.drop_last());
    }
}

/// Limits a floored AC-scale value to the digit range `[0, 82]`.
pub fn quantize_scale(scale_floor: i64) -> (r: u32)
    ensures
        r == clamp_int(scale_floor as int, 0, 82),
        r <= 82,
{
    if scale_floor < 0 {
        0
    } else if scale_floor > 82 {
        82
    } else {
        scale_floor as u32
    }
}

/// Limits a floored AC level to the range `[0, 18]`.
pub fn quantize_ac_level(level_floor: i64) -> (r: u32)
    ensures
        r == clamp_int(level_floor as int, 0, 18),
        r <= 18,
{
    if level_floor < 0 {
        0
    } else if level_floor > 18 {
        18
    } else {
        level_floor as u32
    }
}

/// Packs the DC colour bytes as `(r << 16) | (g << 8) | b`.
pub fn encode_dc(r: u8, g: u8, b: u8) -> (v: u32)
    ensures
        v == dc_value(r, g, b),
        v < 0x100_0000,
{
    let r32 = r as u32;
    let g32 = g as u32;
    let b32 = b as u32;
    assert(r32 << 16 == r32 * 65536 && g32 << 8 == g32 * 256) by (bit_vector)
        requires
            r32 <= 255,
            g32 <= 255,
    ;
    (r32 << 16) + (g32 << 8) + b32
}

/// Packs three floored AC levels, each first limited to `[0, 18]`, as
/// `r * 19 * 19 + g * 19 + b`.
pub fn encode_ac(levels: (i64, i64, i64)) -> (v: u32)
    ensures
        v == ac_value(levels),
        v < 6859,
{
    let r = quantize_ac_level(levels.0);
    let g = quantize_ac_level(levels.1);
    let b = quantize_ac_level(levels.2);
    r * 19 * 19 + g * 19 + b
}

/// Assembles the hash from the quantized parts of a transform with `nx` by
/// `ny` components: the floored AC scale, the DC colour bytes, and the floored
/// levels of each AC component in component order.
pub fn encode_quantized(
    nx: usize,
    ny: usize,
    scale_floor: i64,
    dc: (u8, u8, u8),
    ac: &Vec<(i64, i64, i64)>,
) -> (r: String)
    requires
        1 <= nx <= 9,
        1 <= ny <= 9,
        ac@.len() == nx * ny - 1,
    ensures
        r@ == hash_symbols(nx as int, ny as int, scale_floor as int, dc, ac@),
        r@.len() == 6 + 2 * (nx * ny - 1),
{
    let flag = ((nx - 1) + (ny - 1) * 9) as u32;
    let scale: u32 = if ac.len() == 0 {
        0
    } else {
        quantize_scale(scale_floor)
    };
    let mut out = encode_base83(flag, 1);
    let scale_part = encode_base83(scale, 1);
    out.append(scale_part.as_str());
    let dc_part = encode_base83(encode_dc(dc.0, dc.1, dc.2), 4);
    out.append(dc_part.as_str());
    let ghost header = out@;
    let mut k: usize = 0;
    assert(ac@.subrange(0, 0) =~= Seq::<(i64, i64, i64)>::empty());
    while k < ac.len()
        invariant
            k <= ac@.len(),
            out@ == header + ac_symbols(ac@.subrange(0, k as int)),
        decreases ac@.len() - k,
    {
        let pair = encode_base83(encode_ac(ac[k]), 2);
        out.append(pair.as_str());
        proof {
            let next = ac@.subrange(0, k as int + 1);
            assert(next.drop_last() =~= ac@.subrange(0, k as int));
        }
        k = k + 1;
    }
    proof {
        assert(ac@.subrange(0, ac@.len() as int) =~= ac@);
        lemma_ac_symbols_len(ac@);
    }
    out
}

/// Each AC component occupies its own two symbols: slot `k` of the AC
/// section is the two-symbol numeral of component `k`.
pub proof fn lemma_ac_slot(ac: Seq<(i64, i64, i64)>, k: int)
    requires
        0 <= k < ac.len(),
    ensures
        ac_symbols(ac).subrange(2 * k, 2 * k + 2) =~= base83_encoding(ac_value(ac[k]) as nat, 2),
    decreases ac.len(),
{
    let p = ac.drop_last();
    lemma_ac_symbols_len(p);
    if k < ac.len() - 1 {
        lemma_ac_slot(p, k);
        assert(ac_symbols(ac).subrange(2 * k, 2 * k + 2) =~= ac_symbols(p).subrange(2 * k, 2 * k + 2));
    } else {
        assert(ac_symbols(ac).subrange(2 * k, 2 * k + 2) =~= base83_encoding(ac_value(ac.last()) as nat, 2));
    }
}

/// The first symbol of a hash reads back as the size flag, from which the
/// component counts are recovered: `nx = flag % 9 + 1`, `ny = flag / 9 + 1`.
pub proof fn lemma_size_flag_decodes(
    nx: int,
    ny: int,
    scale_floor: int,
    dc: (u8, u8, u8),
    ac: Seq<(i64, i64, i64)>,
)
    requires
        1 <= nx <= 9,
        1 <= ny <= 9,
    ensures
        ({
            let flag = base83_value(hash_symbols(nx, ny, scale_floor, dc, ac).subrange(0, 1));
            &&& flag == size_flag(nx, ny)
            &&& flag % 9 + 1 == nx
            &&& flag / 9 + 1 == ny
        }),
{
    let h = hash_symbols(nx, ny, scale_floor, dc, ac);
    assert(h.subrange(0, 1) =~= base83_encoding(size_flag(nx, ny) as nat, 1));
    assert(pow83(1) == 83) by {
        assert(pow83(0) == 1);
    }
    lemma_base83_round_trip(size_flag(nx, ny) as nat, 1);
}

/// The second symbol of a hash reads back as a scale flag in `[0, 82]`, and
/// as `0` when the transform has a single component.
pub proof fn lemma_scale_flag_range(
    nx: int,
    ny: int,
    scale_floor: int,
    dc: (u8, u8, u8),
    ac: Seq<(i64, i64, i64)>,
)
    requires
        1 <= nx <= 9,
        1 <= ny <= 9,
        ac.len() == nx * ny - 1,
    ensures
        ({
            let flag = base83_value(hash_symbols(nx, ny, scale_floor, dc, ac).subrange(1, 2));
            &&& flag == scale_flag(ac.len(), scale_floor)
            &&& 0 <= flag <= 82
            &&& nx * ny == 1 ==> flag == 0
        }),
{
    let h = hash_symbols(nx, ny, scale_floor, dc, ac);
    let f = scale_flag(ac.len(), scale_floor);
    assert(h.subrange(1, 2) =~= base83_encoding(f as nat, 1));
    assert(pow83(1) == 83) by {
        assert(pow83(0) == 1);
    }
    lemma_base83_round_trip(f as nat, 1);
}

/// Symbols two to five of a hash read back as the packed DC colour, exactly.
pub proof fn lemma_dc_field_decodes(
    nx: int,
    ny: int,
    scale_floor: int,
    dc: (u8, u8, u8),
    ac: Seq<(i64, i64, i64)>,
)
    ensures
        base83_value(hash_symbols(nx, ny, scale_floor, dc, ac).subrange(2, 6)) == dc_value(
            dc.0,
            dc.1,
            dc.2,
        ),
{
    let h = hash_symbols(nx, ny, scale_floor, dc, ac);
    let v = dc_value(dc.0, dc.1, dc.2);
    assert(h.subrange(2, 6) =~= base83_encoding(v as nat, 4));
    assert(pow83(4) == 47458321) by {
        assert(pow83(0) == 1);
        assert(pow83(1) == 83);
        assert(pow83(2) == 6889);
        assert(pow83(3) == 571787);
    }
    lemma_base83_round_trip(v as nat, 4);
}

/// When every AC component has the mid-scale levels `(9, 9, 9)`, as a
/// component of zero amplitude does, every AC slot of the hash holds the
/// numeral of `9 * 19 * 19 + 9 * 19 + 9 = 3429`.
pub proof fn lemma_mid_level_slots(
    nx: int,
    ny: int,
    scale_floor: int,
    dc: (u8, u8, u8),
    ac: Seq<(i64, i64, i64)>,
)
    requires
        forall|k: int| 0 <= k < ac.len() ==> #[trigger] ac[k] == (9i64, 9i64, 9i64),
    ensures
        ac_value((9i64, 9i64, 9i64)) == 3429,
        forall|k: int|
            0 <= k < ac.len() ==> #[trigger] hash_symbols(nx, ny, scale_floor, dc, ac).subrange(
                6 + 2 * k,
                8 + 2 * k,
            ) =~= base83_encoding(3429, 2),
{
    let h = hash_symbols(nx, ny, scale_floor, dc, ac);
    assert forall|k: int| 0 <= k < ac.len() implies #[trigger] h.subrange(
        6 + 2 * k,
        8 + 2 * k,
    ) =~= base83_encoding(3429, 2) by {
        lemma_ac_slot(ac, k);
        lemma_ac_symbols_len(ac);
        assert(h.subrange(6 + 2 * k, 8 + 2 * k) =~= ac_symbols(ac).subrange(2 * k, 2 * k + 2));
    }
}

proof fn lemma_ac_symbols_in_alphabet(ac: Seq<(i64, i64, i64)>)
    ensures
        all_base83_symbols(ac_symbols(ac)),
    decreases ac.len(),
{
    if ac.len() > 0 {
        let p = ac.drop_last();
        lemma_ac_symbols_in_alphabet(p);
        lemma_base83_round_trip(ac_value(ac.last()) as nat, 2);
        let tail = base83_encoding(ac_value(ac.last()) as nat, 2);
        assert(all_base83_symbols(tail));
        assert forall|k: int| 0 <= k < ac_symbols(ac).len() implies #[trigger] ac_symbols(
            ac,
        )[k] == (if k < ac_symbols(p).len() {
            ac_symbols(p)[k]
        } else {
            tail[k - ac_symbols(p).len()]
        }) by {}
    }
}

/// Every symbol of a hash belongs to the base-83 alphabet.
pub proof fn lemma_hash_in_alphabet(
    nx: int,
    ny: int,
    scale_floor: int,
    dc: (u8, u8, u8),
    ac: Seq<(i64, i64, i64)>,
)
    ensures
        all_base83_symbols(hash_symbols(nx, ny, scale_floor, dc, ac)),
{
    let a = base83_encoding(size_flag(nx, ny) as nat, 1);
    let b = base83_encoding(scale_flag(ac.len(), scale_floor) as nat, 1);
    let c = base83_encoding(dc_value(dc.0, dc.1, dc.2) as nat, 4);
    let d = ac_symbols(ac);
    lemma_base83_round_trip(size_flag(nx, ny) as nat, 1);
    lemma_base83_round_trip(scale_flag(ac.len(), scale_floor) as nat, 1);
    lemma_base83_round_trip(dc_value(dc.0, dc.1, dc.2) as nat, 4);
    lemma_ac_symbols_in_alphabet(ac);
    let h = hash_symbols(nx, ny, scale_floor, dc, ac);
    assert forall|k: int| 0 <= k < h.len() implies is_base83_symbol(#[trigger] h[k]) by {
        if k < 1 {
            assert(h[k] == a[k]);
        } else if k < 2 {
            assert(h[k] == b[k - 1]);
        } else if k < 6 {
            assert(h[k] == c[k - 2]);
        } else {
            assert(h[k] == d[k - 6]);
        }
    }
}

} // verus!
