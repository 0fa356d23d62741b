use vstd::prelude::*;

verus! {

// Physics userdata is stored in a u128:
// [127:119] userdata type
// [118:96]  reserved
// [95:64]   extra data
// [63:0]    index
/// What a physics body's userdata refers to.
#[derive(Debug, Clone, Copy, PartialEq, Eq, Structural)]
pub enum UserdataType {
    Part,
    Handle,
}

impl UserdataType {
    /// The number stored for this type.
    pub open spec fn spec_code(self) -> u8 {
        match self {
            UserdataType::Part => 1,
            UserdataType::Handle => 2,
        }
    }

    /// The number stored for this type.
    pub fn code(self) -> (r: u8)
        ensures
            r == self.spec_code(),
    {
        match self {
            UserdataType::Part => 1,
            UserdataType::Handle => 2,
        }
    }
}

/// The userdata word for `ty`, `index` and `extra_data`.
pub open spec fn userdata_value(ty: u8, index: u64, extra_data: u32) -> int {
    ty * 0x80_0000_0000_0000_0000_0000_0000_0000int + extra_data * 0x1_0000_0000_0000_0000int + index
}

/// Packs a userdata type, an arena index and extra data into one word.
pub fn gen_userdata(ty: UserdataType, index: u64, extra_data: u32) -> (r: u128)
    ensures
        r == userdata_value(ty.spec_code(), index, extra_data),
{
    let code = ty.code();
    let t = code as u128;
    let e = extra_data as u128;
    let i = index as u128;
    assert(t << 119u128 | e << 64u128 | i == t * 0x80_0000_0000_0000_0000_0000_0000_0000u128 + e * 0x1_0000_0000_0000_0000u128 + i) by (bit_vector)
        requires
            t < 256,
            e < 0x1_0000_0000,
            i < 0x1_0000_0000_0000_0000,
    ;
    t << 119u128 | e << 64u128 | i
}

/// Unpacks a userdata word into (type, index, extra data): the type is bits
/// 119 and up (cut to 8 bits), the index the low 64 bits, the extra data bits 64 to 95.
pub fn read_userdata(userdata: u128) -> (r: (u8, u64, u32))
    ensures
        r.0 == (userdata / 0x80_0000_0000_0000_0000_0000_0000_0000u128) % 256,
        r.1 == userdata % 0x1_0000_0000_0000_0000u128,
        r.2 == (userdata / 0x1_0000_0000_0000_0000u128) % 0x1_0000_0000,
{
    let ty = userdata >> 119u128;
    let extra_data = (userdata >> 64u128) & 0xffff_ffff_ffff_ffffu128;
    let index = userdata & 0xffff_ffff_ffff_ffffu128;
    assert(ty == userdata / 0x80_0000_0000_0000_0000_0000_0000_0000u128) by (bit_vector)
        requires
            ty == userdata >> 119u128,
    ;
    assert(index == userdata % 0x1_0000_0000_0000_0000u128) by (bit_vector)
        requires
            index == userdata & 0xffff_ffff_ffff_ffffu128,
    ;
    assert(extra_data % 0x1_0000_0000 == (userdata / 0x1_0000_0000_0000_0000u128) % 0x1_0000_0000) by (bit_vector)
        requires
            extra_data == (userdata >> 64u128) & 0xffff_ffff_ffff_ffffu128,
    ;
    let t8 = (ty % 256) as u8;
    let i64v = index as u64;
    let e32 = (extra_data % 0x1_0000_0000) as u32;
    (t8, i64v, e32)
}

/// Reading back a generated userdata word gives the type's code, the index and
/// the extra data that went in.
pub proof fn law_userdata_roundtrip(ty: UserdataType, index: u64, extra_data: u32)
    ensures
        ({
            let u = userdata_value(ty.spec_code(), index, extra_data);
            &&& 0 <= u <= u128::MAX
            &&& (u / 0x80_0000_0000_0000_0000_0000_0000_0000int) % 256 == ty.spec_code()
            &&& u % 0x1_0000_0000_0000_0000int == index
            &&& (u / 0x1_0000_0000_0000_0000int) % 0x1_0000_0000 == extra_data
        }),
{
    let t = ty.spec_code() as int;
    let e = extra_data as int;
    let i = index as int;
    let u = userdata_value(ty.spec_code(), index, extra_data);
    let hi = 0x80_0000_0000_0000_0000_0000_0000_0000int;
    let lo = 0x1_0000_0000_0000_0000int;
    assert(hi == lo * 0x80_0000_0000_0000int);
    assert(u == (t * 0x80_0000_0000_0000int + e) * lo + i);
    vstd::arithmetic::div_mod::lemma_fundamental_div_mod_converse(u, lo, t * 0x80_0000_0000_0000int + e, i);
    let q = t * 0x80_0000_0000_0000int + e;
    vstd::arithmetic::div_mod::lemma_fundamental_div_mod_converse(q, 0x1_0000_0000int, t * 0x80_0000int, e);
    assert(u == t * hi + (e * lo + i));
    vstd::arithmetic::div_mod::lemma_fundamental_div_mod_converse(u, hi, t, e * lo + i);
    vstd::arithmetic::div_mod::lemma_fundamental_div_mod_converse(t, 256, 0, t);
}

} // verus!
