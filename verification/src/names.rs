//! The names that members of objects go by, packed into numbers.

use vstd::prelude::*;

verus! {

/// The name `a`.
pub const NAME_A: u128 = 0x1_61;

/// The name `ao`.
pub const NAME_AO: u128 = 0x1_616f;

/// The name `assets`.
pub const NAME_ASSETS: u128 = 0x1_617373657473;

/// The name `c`.
pub const NAME_C: u128 = 0x1_63;

/// The name `d`.
pub const NAME_D: u128 = 0x1_64;

/// The name `e`.
pub const NAME_E: u128 = 0x1_65;

/// The name `eo`.
pub const NAME_EO: u128 = 0x1_656f;

/// The name `f12`.
pub const NAME_F12: u128 = 0x1_663132;

/// The name `f3`.
pub const NAME_F3: u128 = 0x1_6633;

/// The name `f4`.
pub const NAME_F4: u128 = 0x1_6634;

/// The name `f5`.
pub const NAME_F5: u128 = 0x1_6635;

/// The name `f6`.
pub const NAME_F6: u128 = 0x1_6636;

/// The name `fitz`.
pub const NAME_FITZ: u128 = 0x1_6669747a;

/// The name `fr`.
pub const NAME_FR: u128 = 0x1_6672;

/// The name `g`.
pub const NAME_G: u128 = 0x1_67;

/// The name `h`.
pub const NAME_H: u128 = 0x1_68;

/// The name `hd`.
pub const NAME_HD: u128 = 0x1_6864;

/// The name `i`.
pub const NAME_I: u128 = 0x1_69;

/// The name `id`.
pub const NAME_ID: u128 = 0x1_6964;

/// The name `ind`.
pub const NAME_IND: u128 = 0x1_696e64;

/// The name `inv`.
pub const NAME_INV: u128 = 0x1_696e76;

/// The name `ip`.
pub const NAME_IP: u128 = 0x1_6970;

/// The name `ir`.
pub const NAME_IR: u128 = 0x1_6972;

/// The name `is`.
pub const NAME_IS: u128 = 0x1_6973;

/// The name `it`.
pub const NAME_IT: u128 = 0x1_6974;

/// The name `k`.
pub const NAME_K: u128 = 0x1_6b;

/// The name `ks`.
pub const NAME_KS: u128 = 0x1_6b73;

/// The name `layers`.
pub const NAME_LAYERS: u128 = 0x1_6c6179657273;

/// The name `lc`.
pub const NAME_LC: u128 = 0x1_6c63;

/// The name `lj`.
pub const NAME_LJ: u128 = 0x1_6c6a;

/// The name `m`.
pub const NAME_M: u128 = 0x1_6d;

/// The name `masksProperties`.
pub const NAME_MASKS_PROPERTIES: u128 = 0x1_6d61736b7350726f70657274696573;

/// The name `ml`.
pub const NAME_ML: u128 = 0x1_6d6c;

/// The name `mode`.
pub const NAME_MODE: u128 = 0x1_6d6f6465;

/// The name `n`.
pub const NAME_N: u128 = 0x1_6e;

/// The name `nm`.
pub const NAME_NM: u128 = 0x1_6e6d;

/// The name `o`.
pub const NAME_O: u128 = 0x1_6f;

/// The name `op`.
pub const NAME_OP: u128 = 0x1_6f70;

/// The name `or`.
pub const NAME_OR: u128 = 0x1_6f72;

/// The name `os`.
pub const NAME_OS: u128 = 0x1_6f73;

/// The name `p`.
pub const NAME_P: u128 = 0x1_70;

/// The name `parent`.
pub const NAME_PARENT: u128 = 0x1_706172656e74;

/// The name `pt`.
pub const NAME_PT: u128 = 0x1_7074;

/// The name `r`.
pub const NAME_R: u128 = 0x1_72;

/// The name `refId`.
pub const NAME_REF_ID: u128 = 0x1_7265664964;

/// The name `s`.
pub const NAME_S: u128 = 0x1_73;

/// The name `sa`.
pub const NAME_SA: u128 = 0x1_7361;

/// The name `sc`.
pub const NAME_SC: u128 = 0x1_7363;

/// The name `sh`.
pub const NAME_SH: u128 = 0x1_7368;

/// The name `shapes`.
pub const NAME_SHAPES: u128 = 0x1_736861706573;

/// The name `sk`.
pub const NAME_SK: u128 = 0x1_736b;

/// The name `so`.
pub const NAME_SO: u128 = 0x1_736f;

/// The name `sr`.
pub const NAME_SR: u128 = 0x1_7372;

/// The name `st`.
pub const NAME_ST: u128 = 0x1_7374;

/// The name `sw`.
pub const NAME_SW: u128 = 0x1_7377;

/// The name `sy`.
pub const NAME_SY: u128 = 0x1_7379;

/// The name `t`.
pub const NAME_T: u128 = 0x1_74;

/// The name `td`.
pub const NAME_TD: u128 = 0x1_7464;

/// The name `tm`.
pub const NAME_TM: u128 = 0x1_746d;

/// The name `tr`.
pub const NAME_TR: u128 = 0x1_7472;

/// The name `tt`.
pub const NAME_TT: u128 = 0x1_7474;

/// The name `ty`.
pub const NAME_TY: u128 = 0x1_7479;

/// The name `v`.
pub const NAME_V: u128 = 0x1_76;

/// The name `w`.
pub const NAME_W: u128 = 0x1_77;

/// The name `x`.
pub const NAME_X: u128 = 0x1_78;

/// The name `y`.
pub const NAME_Y: u128 = 0x1_79;

/// The type `el`.
pub const TYPE_EL: u128 = 0x1_656c;

/// The type `fl`.
pub const TYPE_FL: u128 = 0x1_666c;

/// The type `gf`.
pub const TYPE_GF: u128 = 0x1_6766;

/// The type `gr`.
pub const TYPE_GR: u128 = 0x1_6772;

/// The type `gs`.
pub const TYPE_GS: u128 = 0x1_6773;

/// The type `rc`.
pub const TYPE_RC: u128 = 0x1_7263;

/// The type `rd`.
pub const TYPE_RD: u128 = 0x1_7264;

/// The type `rp`.
pub const TYPE_RP: u128 = 0x1_7270;

/// The type `sh`.
pub const TYPE_SH: u128 = 0x1_7368;

/// The type `sr`.
pub const TYPE_SR: u128 = 0x1_7372;

/// The type `st`.
pub const TYPE_ST: u128 = 0x1_7374;

/// The type `tm`.
pub const TYPE_TM: u128 = 0x1_746d;

/// The type `tr`.
pub const TYPE_TR: u128 = 0x1_7472;

/// Names are spelled byte by byte behind a one: each is 256 times the name without its last byte, and
/// that byte.
pub proof fn law_names_are_spelled()
    ensures
        NAME_A == 256 + 97,
        NAME_AO == 256 * (256 + 97) + 111,
        NAME_ASSETS == 256 * (256 * (256 * (256 * (256 * (256 + 97) + 115) + 115) + 101) + 116) + 115,
        NAME_C == 256 + 99,
        NAME_D == 256 + 100,
        NAME_E == 256 + 101,
        NAME_EO == 256 * (256 + 101) + 111,
        NAME_F12 == 256 * (256 * (256 + 102) + 49) + 50,
        NAME_F3 == 256 * (256 + 102) + 51,
        NAME_F4 == 256 * (256 + 102) + 52,
        NAME_F5 == 256 * (256 + 102) + 53,
        NAME_F6 == 256 * (256 + 102) + 54,
        NAME_FITZ == 256 * (256 * (256 * (256 + 102) + 105) + 116) + 122,
        NAME_FR == 256 * (256 + 102) + 114,
        NAME_G == 256 + 103,
        NAME_H == 256 + 104,
        NAME_HD == 256 * (256 + 104) + 100,
        NAME_I == 256 + 105,
        NAME_ID == 256 * (256 + 105) + 100,
        NAME_IND == 256 * (256 * (256 + 105) + 110) + 100,
        NAME_INV == 256 * (256 * (256 + 105) + 110) + 118,
        NAME_IP == 256 * (256 + 105) + 112,
        NAME_IR == 256 * (256 + 105) + 114,
        NAME_IS == 256 * (256 + 105) + 115,
        NAME_IT == 256 * (256 + 105) + 116,
        NAME_K == 256 + 107,
        NAME_KS == 256 * (256 + 107) + 115,
        NAME_LAYERS == 256 * (256 * (256 * (256 * (256 * (256 + 108) + 97) + 121) + 101) + 114) + 115,
        NAME_LC == 256 * (256 + 108) + 99,
        NAME_LJ == 256 * (256 + 108) + 106,
        NAME_M == 256 + 109,
        NAME_MASKS_PROPERTIES == 256 * (256 * (256 * (256 * (256 * (256 * (256 * (256 * (256 * (256 * (256 * (256 * (256 * (256 * (256 + 109) + 97) + 115) + 107) + 115) + 80) + 114) + 111) + 112) + 101) + 114) + 116) + 105) + 101) + 115,
        NAME_ML == 256 * (256 + 109) + 108,
        NAME_MODE == 256 * (256 * (256 * (256 + 109) + 111) + 100) + 101,
        NAME_N == 256 + 110,
        NAME_NM == 256 * (256 + 110) + 109,
        NAME_O == 256 + 111,
        NAME_OP == 256 * (256 + 111) + 112,
        NAME_OR == 256 * (256 + 111) + 114,
        NAME_OS == 256 * (256 + 111) + 115,
        NAME_P == 256 + 112,
        NAME_PARENT == 256 * (256 * (256 * (256 * (256 * (256 + 112) + 97) + 114) + 101) + 110) + 116,
        NAME_PT == 256 * (256 + 112) + 116,
        NAME_R == 256 + 114,
        NAME_REF_ID == 256 * (256 * (256 * (256 * (256 + 114) + 101) + 102) + 73) + 100,
        NAME_S == 256 + 115,
        NAME_SA == 256 * (256 + 115) + 97,
        NAME_SC == 256 * (256 + 115) + 99,
        NAME_SH == 256 * (256 + 115) + 104,
        NAME_SHAPES == 256 * (256 * (256 * (256 * (256 * (256 + 115) + 104) + 97) + 112) + 101) + 115,
        NAME_SK == 256 * (256 + 115) + 107,
        NAME_SO == 256 * (256 + 115) + 111,
        NAME_SR == 256 * (256 + 115) + 114,
        NAME_ST == 256 * (256 + 115) + 116,
        NAME_SW == 256 * (256 + 115) + 119,
        NAME_SY == 256 * (256 + 115) + 121,
        NAME_T == 256 + 116,
        NAME_TD == 256 * (256 + 116) + 100,
        NAME_TM == 256 * (256 + 116) + 109,
        NAME_TR == 256 * (256 + 116) + 114,
        NAME_TT == 256 * (256 + 116) + 116,
        NAME_TY == 256 * (256 + 116) + 121,
        NAME_V == 256 + 118,
        NAME_W == 256 + 119,
        NAME_X == 256 + 120,
        NAME_Y == 256 + 121,
        TYPE_EL == 256 * (256 + 101) + 108,
        TYPE_FL == 256 * (256 + 102) + 108,
        TYPE_GF == 256 * (256 + 103) + 102,
        TYPE_GR == 256 * (256 + 103) + 114,
        TYPE_GS == 256 * (256 + 103) + 115,
        TYPE_RC == 256 * (256 + 114) + 99,
        TYPE_RD == 256 * (256 + 114) + 100,
        TYPE_RP == 256 * (256 + 114) + 112,
        TYPE_SH == 256 * (256 + 115) + 104,
        TYPE_SR == 256 * (256 + 115) + 114,
        TYPE_ST == 256 * (256 + 115) + 116,
        TYPE_TM == 256 * (256 + 116) + 109,
        TYPE_TR == 256 * (256 + 116) + 114,
{
}

} // verus!
