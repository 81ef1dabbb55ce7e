use vstd::prelude::*;

verus! {

/// The four nucleotide bytes, in the fixed order that motif codes use.
pub const NUC_A: u8 = 65;
pub const NUC_T: u8 = 84;
pub const NUC_G: u8 = 71;
pub const NUC_C: u8 = 67;

/// Index of a nucleotide byte in the fixed base order A, T, G, C;
/// -1 for any other byte.
pub open spec fn base_index(b: u8) -> int {
    if b == NUC_A {
        0
    } else if b == NUC_T {
        1
    } else if b == NUC_G {
        2
    } else if b == NUC_C {
        3
    } else {
        -1
    }
}

pub open spec fn is_base(b: u8) -> bool {
    base_index(b) >= 0
}

/// The byte for a base index in 0..4 (inverse of `base_index`).
pub open spec fn base_byte(i: int) -> u8 {
    if i == 0 {
        NUC_A
    } else if i == 1 {
        NUC_T
    } else if i == 2 {
        NUC_G
    } else {
        NUC_C
    }
}

/// Code of a motif window. Dinucleotides map to 0..16, trinucleotides to
/// 16..80; windows of any other length, or containing a non-base byte,
/// map to -1.
pub open spec fn window_code(w: Seq<u8>) -> int {
    if w.len() == 2 {
        if is_base(w[0]) && is_base(w[1]) {
            base_index(w[0]) * 4 + base_index(w[1])
        } else {
            -1
        }
    } else if w.len() == 3 {
        if is_base(w[0]) && is_base(w[1]) && is_base(w[2]) {
            16 + base_index(w[0]) * 16 + base_index(w[1]) * 4 + base_index(w[2])
        } else {
            -1
        }
    } else {
        -1
    }
}

/// The motif string (as bytes) for a code in 0..80.
pub open spec fn label_of_code(c: int) -> Seq<u8> {
    if 0 <= c < 16 {
        seq![base_byte(c / 4), base_byte(c % 4)]
    } else if 16 <= c < 80 {
        seq![base_byte((c - 16) / 16), base_byte(((c - 16) / 4) % 4), base_byte((c - 16) % 4)]
    } else {
        seq![]
    }
}

/// Base index of a byte, or None when the byte is not a nucleotide.
pub fn base_index_of(b: u8) -> (r: Option<u8>)
    ensures
        match r {
            Some(i) => base_index(b) == i as int && i < 4,
            None => !is_base(b),
        },
{
    if b == NUC_A {
        Some(0)
    } else if b == NUC_T {
        Some(1)
    } else if b == NUC_G {
        Some(2)
    } else if b == NUC_C {
        Some(3)
    } else {
        None
    }
}

/// Byte of a base index in 0..4.
pub fn byte_of_base(i: u8) -> (r: u8)
    requires
        i < 4,
    ensures
        r == base_byte(i as int),
{
    if i == 0 {
        NUC_A
    } else if i == 1 {
        NUC_T
    } else if i == 2 {
        NUC_G
    } else {
        NUC_C
    }
}

/// The motif string for a code in 0..80.
pub fn label_of(code: u8) -> (r: Vec<u8>)
    requires
        code < 80,
    ensures
        r@ == label_of_code(code as int),
{
    let mut r: Vec<u8> = Vec::new();
    if code < 16 {
        r.push(byte_of_base(code / 4));
        r.push(byte_of_base(code % 4));
        assert(r@ =~= label_of_code(code as int));
    } else {
        let t = code - 16;
        r.push(byte_of_base(t / 16));
        r.push(byte_of_base((t / 4) % 4));
        r.push(byte_of_base(t % 4));
        assert(r@ =~= label_of_code(code as int));
    }
    r
}

} // verus!
