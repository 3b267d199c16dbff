//! Fixed MaxiCode tables: the module-placement grid, the five code-set character
//! tables and the fixed orientation modules.
//!
//! The symbol is a plain 30 × 33 module grid: cell `(x, y)` is the module in row
//! `y`, column `x` of ISO/IEC 16023 Figure 5. [`MAXI_GRID`] gives each cell's 1-based
//! data module number (1–864), or 0 for a finder/orientation cell. Data module `n`
//! holds bit `5 − (n − 1) % 6` (most significant first) of codeword `(n − 1) / 6`.
use vstd::prelude::*;

verus! {

/// Grid width in modules.
pub const WIDTH: usize = 30;
/// Grid height in modules.
pub const HEIGHT: usize = 33;

/// ISO/IEC 16023 Figure 5 module sequence: `MAXI_GRID[row][col]` is the 1-based data
/// module number (1–864), or 0 for a finder/orientation cell.
pub const MAXI_GRID: [[u16; 30]; 33] = [
    [122, 121, 128, 127, 134, 133, 140, 139, 146, 145, 152, 151, 158, 157, 164, 163, 170, 169, 176, 175, 182, 181, 188, 187, 194, 193, 200, 199, 0, 0],
    [124, 123, 130, 129, 136, 135, 142, 141, 148, 147, 154, 153, 160, 159, 166, 165, 172, 171, 178, 177, 184, 183, 190, 189, 196, 195, 202, 201, 817, 0],
    [126, 125, 132, 131, 138, 137, 144, 143, 150, 149, 156, 155, 162, 161, 168, 167, 174, 173, 180, 179, 186, 185, 192, 191, 198, 197, 204, 203, 819, 818],
    [284, 283, 278, 277, 272, 271, 266, 265, 260, 259, 254, 253, 248, 247, 242, 241, 236, 235, 230, 229, 224, 223, 218, 217, 212, 211, 206, 205, 820, 0],
    [286, 285, 280, 279, 274, 273, 268, 267, 262, 261, 256, 255, 250, 249, 244, 243, 238, 237, 232, 231, 226, 225, 220, 219, 214, 213, 208, 207, 822, 821],
    [288, 287, 282, 281, 276, 275, 270, 269, 264, 263, 258, 257, 252, 251, 246, 245, 240, 239, 234, 233, 228, 227, 222, 221, 216, 215, 210, 209, 823, 0],
    [290, 289, 296, 295, 302, 301, 308, 307, 314, 313, 320, 319, 326, 325, 332, 331, 338, 337, 344, 343, 350, 349, 356, 355, 362, 361, 368, 367, 825, 824],
    [292, 291, 298, 297, 304, 303, 310, 309, 316, 315, 322, 321, 328, 327, 334, 333, 340, 339, 346, 345, 352, 351, 358, 357, 364, 363, 370, 369, 826, 0],
    [294, 293, 300, 299, 306, 305, 312, 311, 318, 317, 324, 323, 330, 329, 336, 335, 342, 341, 348, 347, 354, 353, 360, 359, 366, 365, 372, 371, 828, 827],
    [410, 409, 404, 403, 398, 397, 392, 391, 80, 79, 0, 0, 14, 13, 38, 37, 3, 0, 45, 44, 110, 109, 386, 385, 380, 379, 374, 373, 829, 0],
    [412, 411, 406, 405, 400, 399, 394, 393, 82, 81, 41, 0, 16, 15, 40, 39, 4, 0, 0, 46, 112, 111, 388, 387, 382, 381, 376, 375, 831, 830],
    [414, 413, 408, 407, 402, 401, 396, 395, 84, 83, 42, 0, 0, 0, 0, 0, 6, 5, 48, 47, 114, 113, 390, 389, 384, 383, 378, 377, 832, 0],
    [416, 415, 422, 421, 428, 427, 104, 103, 56, 55, 17, 0, 0, 0, 0, 0, 0, 0, 21, 20, 86, 85, 434, 433, 440, 439, 446, 445, 834, 833],
    [418, 417, 424, 423, 430, 429, 106, 105, 58, 57, 0, 0, 0, 0, 0, 0, 0, 0, 23, 22, 88, 87, 436, 435, 442, 441, 448, 447, 835, 0],
    [420, 419, 426, 425, 432, 431, 108, 107, 60, 59, 0, 0, 0, 0, 0, 0, 0, 0, 0, 24, 90, 89, 438, 437, 444, 443, 450, 449, 837, 836],
    [482, 481, 476, 475, 470, 469, 49, 0, 31, 0, 0, 0, 0, 0, 0, 0, 0, 0, 0, 1, 54, 53, 464, 463, 458, 457, 452, 451, 838, 0],
    [484, 483, 478, 477, 472, 471, 50, 0, 0, 0, 0, 0, 0, 0, 0, 0, 0, 0, 0, 0, 0, 0, 466, 465, 460, 459, 454, 453, 840, 839],
    [486, 485, 480, 479, 474, 473, 52, 51, 32, 0, 0, 0, 0, 0, 0, 0, 0, 0, 0, 2, 0, 43, 468, 467, 462, 461, 456, 455, 841, 0],
    [488, 487, 494, 493, 500, 499, 98, 97, 62, 61, 0, 0, 0, 0, 0, 0, 0, 0, 0, 27, 92, 91, 506, 505, 512, 511, 518, 517, 843, 842],
    [490, 489, 496, 495, 502, 501, 100, 99, 64, 63, 0, 0, 0, 0, 0, 0, 0, 0, 29, 28, 94, 93, 508, 507, 514, 513, 520, 519, 844, 0],
    [492, 491, 498, 497, 504, 503, 102, 101, 66, 65, 18, 0, 0, 0, 0, 0, 0, 0, 19, 30, 96, 95, 510, 509, 516, 515, 522, 521, 846, 845],
    [560, 559, 554, 553, 548, 547, 542, 541, 74, 73, 33, 0, 0, 0, 0, 0, 0, 11, 68, 67, 116, 115, 536, 535, 530, 529, 524, 523, 847, 0],
    [562, 561, 556, 555, 550, 549, 544, 543, 76, 75, 0, 0, 8, 7, 36, 35, 12, 0, 70, 69, 118, 117, 538, 537, 532, 531, 526, 525, 849, 848],
    [564, 563, 558, 557, 552, 551, 546, 545, 78, 77, 0, 34, 10, 9, 26, 25, 0, 0, 72, 71, 120, 119, 540, 539, 534, 533, 528, 527, 850, 0],
    [566, 565, 572, 571, 578, 577, 584, 583, 590, 589, 596, 595, 602, 601, 608, 607, 614, 613, 620, 619, 626, 625, 632, 631, 638, 637, 644, 643, 852, 851],
    [568, 567, 574, 573, 580, 579, 586, 585, 592, 591, 598, 597, 604, 603, 610, 609, 616, 615, 622, 621, 628, 627, 634, 633, 640, 639, 646, 645, 853, 0],
    [570, 569, 576, 575, 582, 581, 588, 587, 594, 593, 600, 599, 606, 605, 612, 611, 618, 617, 624, 623, 630, 629, 636, 635, 642, 641, 648, 647, 855, 854],
    [728, 727, 722, 721, 716, 715, 710, 709, 704, 703, 698, 697, 692, 691, 686, 685, 680, 679, 674, 673, 668, 667, 662, 661, 656, 655, 650, 649, 856, 0],
    [730, 729, 724, 723, 718, 717, 712, 711, 706, 705, 700, 699, 694, 693, 688, 687, 682, 681, 676, 675, 670, 669, 664, 663, 658, 657, 652, 651, 858, 857],
    [732, 731, 726, 725, 720, 719, 714, 713, 708, 707, 702, 701, 696, 695, 690, 689, 684, 683, 678, 677, 672, 671, 666, 665, 660, 659, 654, 653, 859, 0],
    [734, 733, 740, 739, 746, 745, 752, 751, 758, 757, 764, 763, 770, 769, 776, 775, 782, 781, 788, 787, 794, 793, 800, 799, 806, 805, 812, 811, 861, 860],
    [736, 735, 742, 741, 748, 747, 754, 753, 760, 759, 766, 765, 772, 771, 778, 777, 784, 783, 790, 789, 796, 795, 802, 801, 808, 807, 814, 813, 862, 0],
    [738, 737, 744, 743, 750, 749, 756, 755, 762, 761, 768, 767, 774, 773, 780, 779, 786, 785, 792, 791, 798, 797, 804, 803, 810, 809, 816, 815, 864, 863],
];

/// Fixed dark orientation modules `(row, col)` added on top of the data grid.
pub const ORIENTATION: [(usize, usize); 13] = [
    (0, 28),
    (0, 29),
    (9, 10),
    (9, 11),
    (10, 11),
    (15, 7),
    (16, 8),
    (16, 20),
    (17, 20),
    (22, 10),
    (23, 10),
    (22, 17),
    (23, 17),
];

/// `(codeword index, bit)` of module number `v`, or `None` for a finder/orientation
/// cell (`v == 0`). Bit 5 is the most significant of the 6-bit codeword.
pub fn cell_target(v: u16) -> (r: Option<(usize, u8)>)
    ensures
        v == 0 ==> r is None,
        v != 0 ==> r == Some((((v - 1) as int / 6) as usize, (5 - (v - 1) as int % 6) as u8)),
{
    if v == 0 {
        None
    } else {
        let n = (v - 1) as usize;
        Some((n / 6, 5 - (n % 6) as u8))
    }
}

/// One entry of a MaxiCode code set: a data byte or a control operation.
#[derive(Clone, Copy, Debug, PartialEq, Eq, Structural)]
pub enum Cw {
    /// A data byte in the active ECI's character set.
    Byte(u8),
    /// Latch to Code Set A.
    LatchA,
    /// Latch to Code Set B.
    LatchB,
    /// Shift the next character to Code Set A.
    ShiftA,
    /// Shift the next character to Code Set B.
    ShiftB,
    /// Shift the next character to Code Set C.
    ShiftC,
    /// Shift the next character to Code Set D.
    ShiftD,
    /// Shift the next character to Code Set E.
    ShiftE,
    /// Shift the next two characters to Code Set A.
    TwoShiftA,
    /// Shift the next three characters to Code Set A.
    ThreeShiftA,
    /// Lock the current (shifted) code set.
    Lock,
    /// Extended Channel Interpretation prefix.
    Eci,
    /// Numeric-set prefix: the next five codewords form a 9-digit value.
    Ns,
    /// Padding / no-op.
    Pad,
}

/// The five MaxiCode code sets (A–E) as entry codes, 64 per set indexed by codeword
/// value: 0–255 a data byte, 256 and up a control operation (see [`cw_of`]).
pub const SET_CODES: [[u16; 64]; 5] = [
    [
        13, 65, 66, 67, 68, 69, 70, 71, 72, 73, 74, 75, 76, 77, 78, 79,
        80, 81, 82, 83, 84, 85, 86, 87, 88, 89, 90, 266, 28, 29, 30, 267,
        32, 268, 34, 35, 36, 37, 38, 39, 40, 41, 42, 43, 44, 45, 46, 47,
        48, 49, 50, 51, 52, 53, 54, 55, 56, 57, 58, 259, 260, 261, 262, 257,
    ],
    [
        96, 97, 98, 99, 100, 101, 102, 103, 104, 105, 106, 107, 108, 109, 110, 111,
        112, 113, 114, 115, 116, 117, 118, 119, 120, 121, 122, 266, 28, 29, 30, 267,
        123, 268, 125, 126, 127, 59, 60, 61, 62, 63, 91, 92, 93, 94, 95, 32,
        44, 46, 47, 58, 64, 33, 124, 268, 263, 264, 268, 258, 260, 261, 262, 256,
    ],
    [
        192, 193, 194, 195, 196, 197, 198, 199, 200, 201, 202, 203, 204, 205, 206, 207,
        208, 209, 210, 211, 212, 213, 214, 215, 216, 217, 218, 266, 28, 29, 30, 267,
        219, 220, 221, 222, 223, 170, 172, 177, 178, 179, 181, 185, 186, 188, 189, 190,
        128, 129, 130, 131, 132, 133, 134, 135, 136, 137, 256, 32, 265, 261, 262, 257,
    ],
    [
        224, 225, 226, 227, 228, 229, 230, 231, 232, 233, 234, 235, 236, 237, 238, 239,
        240, 241, 242, 243, 244, 245, 246, 247, 248, 249, 250, 266, 28, 29, 30, 267,
        251, 252, 253, 254, 255, 161, 168, 171, 175, 176, 180, 183, 184, 187, 191, 138,
        139, 140, 141, 142, 143, 144, 145, 146, 147, 148, 256, 32, 260, 265, 262, 257,
    ],
    [
        0, 1, 2, 3, 4, 5, 6, 7, 8, 9, 10, 11, 12, 13, 14, 15,
        16, 17, 18, 19, 20, 21, 22, 23, 24, 25, 26, 266, 268, 268, 27, 267,
        28, 29, 30, 31, 159, 160, 162, 163, 164, 165, 166, 167, 169, 173, 174, 182,
        149, 150, 151, 152, 153, 154, 155, 156, 157, 158, 256, 32, 260, 261, 265, 257,
    ],
];

/// The code-set entry an entry code stands for.
pub open spec fn cw_spec(code: u16) -> Cw {
    if code < 256 {
        Cw::Byte(code as u8)
    } else if code == 256 {
        Cw::LatchA
    } else if code == 257 {
        Cw::LatchB
    } else if code == 258 {
        Cw::ShiftA
    } else if code == 259 {
        Cw::ShiftB
    } else if code == 260 {
        Cw::ShiftC
    } else if code == 261 {
        Cw::ShiftD
    } else if code == 262 {
        Cw::ShiftE
    } else if code == 263 {
        Cw::TwoShiftA
    } else if code == 264 {
        Cw::ThreeShiftA
    } else if code == 265 {
        Cw::Lock
    } else if code == 266 {
        Cw::Eci
    } else if code == 267 {
        Cw::Ns
    } else {
        Cw::Pad
    }
}

/// The code-set entry an entry code stands for.
pub fn cw_of(code: u16) -> (c: Cw)
    ensures
        c == cw_spec(code),
{
    if code < 256 {
        Cw::Byte(code as u8)
    } else if code == 256 {
        Cw::LatchA
    } else if code == 257 {
        Cw::LatchB
    } else if code == 258 {
        Cw::ShiftA
    } else if code == 259 {
        Cw::ShiftB
    } else if code == 260 {
        Cw::ShiftC
    } else if code == 261 {
        Cw::ShiftD
    } else if code == 262 {
        Cw::ShiftE
    } else if code == 263 {
        Cw::TwoShiftA
    } else if code == 264 {
        Cw::ThreeShiftA
    } else if code == 265 {
        Cw::Lock
    } else if code == 266 {
        Cw::Eci
    } else if code == 267 {
        Cw::Ns
    } else {
        Cw::Pad
    }
}

/// Entry `value` of code set `set`.
pub open spec fn set_entry(set: int, value: int) -> Cw {
    cw_spec(SET_CODES[set][value])
}

/// Entry `value` of code set `set` (0 = A … 4 = E).
pub fn entry(set: usize, value: usize) -> (c: Cw)
    requires
        set < 5,
        value < 64,
    ensures
        c == set_entry(set as int, value as int),
{
    let t = SET_CODES;
    cw_of(t[set][value])
}

/// The five code sets, each a 64-entry table indexed by codeword value.
pub fn sets() -> (r: Vec<Vec<Cw>>)
    ensures
        r@.len() == 5,
        forall|s: int| 0 <= s < 5 ==> #[trigger] r@[s]@.len() == 64,
        forall|s: int, v: int| 0 <= s < 5 && 0 <= v < 64 ==> #[trigger] r@[s]@[v] == set_entry(s, v),
{
    let mut out: Vec<Vec<Cw>> = Vec::new();
    let mut s: usize = 0;
    while s < 5
        invariant
            s <= 5,
            out@.len() == s,
            forall|k: int| 0 <= k < s ==> #[trigger] out@[k]@.len() == 64,
            forall|k: int, v: int| 0 <= k < s && 0 <= v < 64 ==> #[trigger] out@[k]@[v] == set_entry(k, v),
        decreases 5 - s,
    {
        let mut row: Vec<Cw> = Vec::new();
        let mut v: usize = 0;
        while v < 64
            invariant
                s < 5,
                v <= 64,
                row@.len() == v,
                forall|k: int| 0 <= k < v ==> #[trigger] row@[k] == set_entry(s as int, k),
            decreases 64 - v,
        {
            row.push(entry(s, v));
            v = v + 1;
        }
        out.push(row);
        s = s + 1;
    }
    out
}

/// The first position at or after `p` of code set `set` holding `Byte(byte)`.
pub open spec fn pos_from(set: int, byte: u8, p: int) -> Option<u8>
    decreases 64 - p,
{
    if p < 0 || p >= 64 {
        None
    } else if set_entry(set, p) == Cw::Byte(byte) {
        Some(p as u8)
    } else {
        pos_from(set, byte, p + 1)
    }
}

/// The codeword value that encodes `byte` in code set `set` (0 = A … 4 = E), if any:
/// the first position holding `Byte(byte)`.
pub fn value_in_set(set: usize, byte: u8) -> (r: Option<u8>)
    requires
        set < 5,
    ensures
        r == pos_from(set as int, byte, 0),
        r matches Some(p) ==> p < 64 && set_entry(set as int, p as int) == Cw::Byte(byte) && forall|q: int|
            0 <= q < p ==> set_entry(set as int, q) != Cw::Byte(byte),
        r is None ==> forall|q: int| 0 <= q < 64 ==> set_entry(set as int, q) != Cw::Byte(byte),
{
    let mut p: usize = 0;
    while p < 64
        invariant
            p <= 64,
            set < 5,
            forall|q: int| 0 <= q < p ==> set_entry(set as int, q) != Cw::Byte(byte),
            pos_from(set as int, byte, 0) == pos_from(set as int, byte, p as int),
        decreases 64 - p,
    {
        if entry(set, p) == Cw::Byte(byte) {
            return Some(p as u8);
        }
        p = p + 1;
    }
    None
}

} // verus!
