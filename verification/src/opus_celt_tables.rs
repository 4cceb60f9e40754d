//! The static tables of the CELT layer for 48 kHz.
use vstd::prelude::*;

verus! {

/// Number of frequency bands.
pub const NUM_BANDS_CELT: usize = 21;

/// Band edges in units of `2^lm` coefficients.
pub const EBAND_5MS: [i16; 22] = [
    0, 1, 2, 3, 4, 5, 6, 7, 8, 10, 12,
    14, 16, 20, 24, 28, 34, 40, 48, 60, 78, 100,
];

/// Base-two logarithm of each band's width, in eighths.
pub const LOG_N_400: [i16; 21] = [
    0, 0, 0, 0, 0, 0, 0, 0, 8, 8, 8, 8, 16, 16, 16, 21, 21, 24, 29, 34, 36,
];

/// Static allocation in 1/32 bit per coefficient: eleven rows of 21 bands.
pub const BAND_ALLOCATION: [u8; 231] = [
    0, 0, 0, 0, 0, 0, 0, 0, 0, 0, 0, 0, 0, 0, 0, 0, 0, 0, 0, 0, 0,
    90, 80, 75, 69, 63, 56, 49, 40, 34, 29, 20, 18, 10, 0, 0, 0, 0, 0, 0, 0, 0,
    110, 100, 90, 84, 78, 71, 65, 58, 51, 45, 39, 32, 26, 20, 12, 0, 0, 0, 0, 0, 0,
    118, 110, 103, 93, 86, 80, 75, 70, 65, 59, 53, 47, 40, 31, 23, 15, 4, 0, 0, 0, 0,
    126, 119, 112, 104, 95, 89, 83, 78, 72, 66, 60, 54, 47, 39, 32, 25, 17, 12, 1, 0, 0,
    134, 127, 120, 114, 103, 97, 91, 85, 78, 72, 66, 60, 54, 47, 41, 35, 29, 23, 16, 10, 1,
    144, 137, 130, 124, 113, 107, 101, 95, 88, 82, 76, 70, 64, 57, 51, 45, 39, 33, 26, 15, 1,
    152, 145, 138, 132, 123, 117, 111, 105, 98, 92, 86, 80, 74, 67, 61, 55, 49, 43, 36, 20, 1,
    162, 155, 148, 142, 133, 127, 121, 115, 108, 102, 96, 90, 84, 77, 71, 65, 59, 53, 46, 30, 1,
    172, 165, 158, 152, 143, 137, 131, 125, 118, 112, 106, 100, 94, 87, 81, 75, 69, 63, 56, 45, 20,
    200, 200, 200, 200, 200, 200, 200, 200, 198, 193, 188, 183, 178, 173, 168, 163, 158, 153, 148, 129, 104,
];

/// Where the cost row of a band starts in [`CACHE_BITS_50`]: five rows of 21
/// bands, -1 where there is none.
pub const CACHE_INDEX_50: [i16; 105] = [
    -1, -1, -1, -1, -1, -1, -1, -1, 0, 0, 0, 0, 41, 41, 41, 82, 82, 123, 164, 200, 222,
    0, 0, 0, 0, 0, 0, 0, 0, 41, 41, 41, 41, 123, 123, 123, 164, 164, 240, 266, 283, 295,
    41, 41, 41, 41, 41, 41, 41, 41, 123, 123, 123, 123, 240, 240, 240, 266, 266, 305, 318, 328, 336,
    123, 123, 123, 123, 123, 123, 123, 123, 240, 240, 240, 240, 305, 305, 305, 318, 318, 343, 351, 358, 364,
    240, 240, 240, 240, 240, 240, 240, 240, 305, 305, 305, 305, 343, 343, 343, 351, 351, 370, 376, 382, 387,
];

/// Cost rows: the number of entries, then the cost in eighths of a bit, less
/// one, of each pseudo pulse count.
pub const CACHE_BITS_50: [u8; 392] = [
    40, 7, 7, 7, 7, 7, 7, 7, 7, 7, 7, 7, 7, 7,
    7, 7, 7, 7, 7, 7, 7, 7, 7, 7, 7, 7, 7, 7,
    7, 7, 7, 7, 7, 7, 7, 7, 7, 7, 7, 7, 7, 40,
    15, 23, 28, 31, 34, 36, 38, 39, 41, 42, 43, 44, 45, 46,
    47, 47, 49, 50, 51, 52, 53, 54, 55, 55, 57, 58, 59, 60,
    61, 62, 63, 63, 65, 66, 67, 68, 69, 70, 71, 71, 40, 20,
    33, 41, 48, 53, 57, 61, 64, 66, 69, 71, 73, 75, 76, 78,
    80, 82, 85, 87, 89, 91, 92, 94, 96, 98, 101, 103, 105, 107,
    108, 110, 112, 114, 117, 119, 121, 123, 124, 126, 128, 40, 23, 39,
    51, 60, 67, 73, 79, 83, 87, 91, 94, 97, 100, 102, 105, 107,
    111, 115, 118, 121, 124, 126, 129, 131, 135, 139, 142, 145, 148, 150,
    153, 155, 159, 163, 166, 169, 172, 174, 177, 179, 35, 28, 49, 65,
    78, 89, 99, 107, 114, 120, 126, 132, 136, 141, 145, 149, 153, 159,
    165, 171, 176, 180, 185, 189, 192, 199, 205, 211, 216, 220, 225, 229,
    232, 239, 245, 251, 21, 33, 58, 79, 97, 112, 125, 137, 148, 157,
    166, 174, 182, 189, 195, 201, 207, 217, 227, 235, 243, 251, 17, 35,
    63, 86, 106, 123, 139, 152, 165, 177, 187, 197, 206, 214, 222, 230,
    237, 250, 25, 31, 55, 75, 91, 105, 117, 128, 138, 146, 154, 161,
    168, 174, 180, 185, 190, 200, 208, 215, 222, 229, 235, 240, 245, 255,
    16, 36, 65, 89, 110, 128, 144, 159, 173, 185, 196, 207, 217, 226,
    234, 242, 250, 11, 41, 74, 103, 128, 151, 172, 191, 209, 225, 241,
    255, 9, 43, 79, 110, 138, 163, 186, 207, 227, 246, 12, 39, 71,
    99, 123, 144, 164, 182, 198, 214, 228, 241, 253, 9, 44, 81, 113,
    142, 168, 192, 214, 235, 255, 7, 49, 90, 127, 160, 191, 220, 247,
    6, 51, 95, 134, 170, 203, 234, 7, 47, 87, 123, 155, 184, 212,
    237, 6, 52, 97, 137, 174, 208, 240, 5, 57, 106, 151, 192, 231,
    5, 59, 111, 158, 202, 243, 5, 55, 103, 147, 187, 224, 5, 60,
    113, 161, 206, 248, 4, 65, 122, 175, 224, 4, 67, 127, 182, 234,
];

/// Most bits a band can use: eight rows (four frame sizes, one or two
/// channels) of 21 bands.
pub const CACHE_CAPS_50: [u8; 168] = [
    224, 224, 224, 224, 224, 224, 224, 224, 160, 160, 160, 160, 185, 185, 185, 178, 178, 168, 134, 61, 37,
    224, 224, 224, 224, 224, 224, 224, 224, 240, 240, 240, 240, 207, 207, 207, 198, 198, 183, 144, 66, 40,
    160, 160, 160, 160, 160, 160, 160, 160, 185, 185, 185, 185, 193, 193, 193, 183, 183, 172, 138, 64, 38,
    240, 240, 240, 240, 240, 240, 240, 240, 207, 207, 207, 207, 204, 204, 204, 193, 193, 180, 143, 66, 40,
    185, 185, 185, 185, 185, 185, 185, 185, 193, 193, 193, 193, 193, 193, 193, 183, 183, 172, 138, 65, 39,
    207, 207, 207, 207, 207, 207, 207, 207, 204, 204, 204, 204, 201, 201, 201, 188, 188, 176, 141, 66, 40,
    193, 193, 193, 193, 193, 193, 193, 193, 193, 193, 193, 193, 194, 194, 194, 184, 184, 173, 139, 65, 39,
    204, 204, 204, 204, 204, 204, 204, 204, 201, 201, 201, 201, 198, 198, 198, 187, 187, 175, 140, 66, 40,
];

/// Laplace model of the intra-coded coarse energies: for each frame size, 21
/// pairs of the probability of zero (in 1/256) and the decay (in 1/256).
pub const E_PROB_INTRA: [u8; 168] = [
    24, 179, 48, 138, 54, 135, 54, 132, 53, 134, 56, 133, 55, 132,
    55, 132, 61, 114, 70, 96, 74, 88, 75, 88, 87, 74, 89, 66,
    91, 67, 100, 59, 108, 50, 120, 40, 122, 37, 97, 43, 78, 50,
    23, 178, 54, 115, 63, 102, 66, 98, 69, 99, 74, 89, 71, 91,
    73, 91, 78, 89, 86, 80, 92, 66, 93, 64, 102, 59, 103, 60,
    104, 60, 117, 52, 123, 44, 138, 35, 133, 31, 97, 38, 77, 45,
    21, 178, 59, 110, 71, 86, 75, 85, 84, 83, 91, 66, 88, 73,
    87, 72, 92, 75, 98, 72, 105, 58, 107, 54, 115, 52, 114, 55,
    112, 56, 129, 51, 132, 40, 150, 33, 140, 29, 98, 35, 77, 42,
    22, 178, 63, 114, 74, 82, 84, 83, 92, 82, 103, 62, 96, 72,
    96, 67, 101, 73, 107, 72, 113, 55, 118, 52, 125, 52, 118, 52,
    117, 55, 135, 49, 137, 39, 157, 32, 145, 29, 97, 33, 77, 40,
];

/// Table for coarse energies when few bits are left.
pub const SMALL_ENERGY_ICDF: [u8; 3] = [2, 1, 0];

/// Table of the spreading decision.
pub const SPREAD_ICDF: [u8; 4] = [25, 23, 2, 0];

/// Table of the allocation trim.
pub const TRIM_ICDF: [u8; 11] = [126, 124, 119, 109, 87, 41, 19, 9, 4, 2, 0];

/// Time-frequency resolution changes: four frame sizes of eight choices.
pub const TF_SELECT_TABLE: [i8; 32] = [
    0, -1, 0, -1, 0, -1, 0, -1,
    0, -1, 0, -2, 1, 0, 1, -1,
    0, -2, 0, -3, 2, 0, 1, -1,
    0, -2, 0, -3, 3, 0, 1, -1,
];

} // verus!
