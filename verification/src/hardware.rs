//! Hardware probe decisions: classify an Apple CPU brand string and map
//! hardware classes to a GPU layer budget.  The probes themselves —
//! reading the CPU brand or the video memory size — are the host's
//! business; the decisions on their output live here.

use vstd::prelude::*;
use crate::chars::{contains_sub, contains_vec, str_chars};

verus! {

/// Apple silicon generations the mapping knows.
#[derive(PartialEq, Eq, Structural, Clone, Copy, Debug)]
pub enum AppleChip {
    M1,
    M2,
    M3,
    Unknown,
}

/// Apple silicon variants the mapping knows.
#[derive(PartialEq, Eq, Structural, Clone, Copy, Debug)]
pub enum ChipVariant {
    Base,
    Pro,
    Max,
    Ultra,
}

/// An upper-case ASCII letter folded to lower case; anything else kept.
pub open spec fn lower_char(c: char) -> char {
    if 'A' <= c && c <= 'Z' {
        (((c as u8) + 32) as char)
    } else {
        c
    }
}

/// The brand string folded to lower case, letter by letter.
pub open spec fn lower_seq(s: Seq<char>) -> Seq<char> {
    Seq::new(s.len(), |i: int| lower_char(s[i]))
}

/// The generation read from a brand string: the first of m3, m2, m1
/// found in its lower-cased text.
pub open spec fn chip_of(s: Seq<char>) -> AppleChip {
    let l = lower_seq(s);
    if contains_sub(l, seq!['m', '3']) {
        AppleChip::M3
    } else if contains_sub(l, seq!['m', '2']) {
        AppleChip::M2
    } else if contains_sub(l, seq!['m', '1']) {
        AppleChip::M1
    } else {
        AppleChip::Unknown
    }
}

/// The variant read from a brand string: ultra, max, pro, or base.
pub open spec fn variant_of(s: Seq<char>) -> ChipVariant {
    let l = lower_seq(s);
    if contains_sub(l, seq!['u', 'l', 't', 'r', 'a']) {
        ChipVariant::Ultra
    } else if contains_sub(l, seq!['m', 'a', 'x']) {
        ChipVariant::Max
    } else if contains_sub(l, seq!['p', 'r', 'o']) {
        ChipVariant::Pro
    } else {
        ChipVariant::Base
    }
}

/// Fold one character to lower case.
fn lower_char_exec(c: char) -> (r: char)
    ensures
        r == lower_char(c),
{
    if 'A' <= c && c <= 'Z' {
        (((c as u8) + 32) as char)
    } else {
        c
    }
}

/// Classify a CPU brand string into its generation and variant.
pub fn detect_apple_chip(cpu_brand: &str) -> (r: (AppleChip, ChipVariant))
    ensures
        r.0 == chip_of(cpu_brand@),
        r.1 == variant_of(cpu_brand@),
{
    let chars = str_chars(cpu_brand);
    let n: usize = chars.len();
    let mut low: Vec<char> = Vec::new();
    let mut i: usize = 0;
    while i < n
        invariant
            chars@ == cpu_brand@,
            n == chars@.len(),
            i <= n,
            low@.len() == i as int,
            forall|k: int| 0 <= k < i ==> #[trigger] low@[k] == lower_char(chars@[k]),
        decreases n - i,
    {
        low.push(lower_char_exec(chars[i]));
        i = i + 1;
    }
    proof {
        assert(low@ =~= lower_seq(cpu_brand@));
    }
    let chip: AppleChip = if contains_vec(&low, &tag2('m', '3')) {
        AppleChip::M3
    } else if contains_vec(&low, &tag2('m', '2')) {
        AppleChip::M2
    } else if contains_vec(&low, &tag2('m', '1')) {
        AppleChip::M1
    } else {
        AppleChip::Unknown
    };
    let variant: ChipVariant = if contains_vec(&low, &tag5('u', 'l', 't', 'r', 'a')) {
        ChipVariant::Ultra
    } else if contains_vec(&low, &tag3('m', 'a', 'x')) {
        ChipVariant::Max
    } else if contains_vec(&low, &tag3('p', 'r', 'o')) {
        ChipVariant::Pro
    } else {
        ChipVariant::Base
    };
    (chip, variant)
}

/// A two-character pattern.
fn tag2(a: char, b: char) -> (r: Vec<char>)
    ensures
        r@ == seq![a, b],
{
    let mut r: Vec<char> = Vec::new();
    r.push(a);
    r.push(b);
    assert(r@ =~= seq![a, b]);
    r
}

/// A three-character pattern.
fn tag3(a: char, b: char, c: char) -> (r: Vec<char>)
    ensures
        r@ == seq![a, b, c],
{
    let mut r: Vec<char> = Vec::new();
    r.push(a);
    r.push(b);
    r.push(c);
    assert(r@ =~= seq![a, b, c]);
    r
}

/// A five-character pattern.
fn tag5(a: char, b: char, c: char, d: char, e: char) -> (r: Vec<char>)
    ensures
        r@ == seq![a, b, c, d, e],
{
    let mut r: Vec<char> = Vec::new();
    r.push(a);
    r.push(b);
    r.push(c);
    r.push(d);
    r.push(e);
    assert(r@ =~= seq![a, b, c, d, e]);
    r
}

/// GPU layer budget for an Apple chip.
pub fn apple_gpu_layers(chip: AppleChip, variant: ChipVariant) -> (r: u32)
    ensures
        (chip is M3 && (variant is Ultra || variant is Max)) ==> r == 99,
        (chip is M3 && variant is Pro) ==> r == 60,
        (chip is M3 && variant is Base) ==> r == 35,
        (chip is M2 && (variant is Ultra || variant is Max)) ==> r == 80,
        (chip is M2 && variant is Pro) ==> r == 50,
        (chip is M2 && variant is Base) ==> r == 28,
        (chip is M1 && (variant is Ultra || variant is Max)) ==> r == 65,
        (chip is M1 && variant is Pro) ==> r == 45,
        (chip is M1 && variant is Base) ==> r == 25,
        chip is Unknown ==> r == 20,
{
    match (chip, variant) {
        (AppleChip::M3, ChipVariant::Ultra) => 99,
        (AppleChip::M3, ChipVariant::Max) => 99,
        (AppleChip::M3, ChipVariant::Pro) => 60,
        (AppleChip::M3, ChipVariant::Base) => 35,
        (AppleChip::M2, ChipVariant::Ultra) => 80,
        (AppleChip::M2, ChipVariant::Max) => 80,
        (AppleChip::M2, ChipVariant::Pro) => 50,
        (AppleChip::M2, ChipVariant::Base) => 28,
        (AppleChip::M1, ChipVariant::Ultra) => 65,
        (AppleChip::M1, ChipVariant::Max) => 65,
        (AppleChip::M1, ChipVariant::Pro) => 45,
        (AppleChip::M1, ChipVariant::Base) => 25,
        (AppleChip::Unknown, _) => 20,
    }
}

/// GPU layer budget for an NVIDIA card, from its total video memory in
/// megabytes.
pub fn nvidia_gpu_layers(vram_mb: u32) -> (r: u32)
    ensures
        vram_mb < 4000 ==> r == 8,
        4000 <= vram_mb < 8000 ==> r == 20,
        8000 <= vram_mb < 12000 ==> r == 28,
        12000 <= vram_mb < 16000 ==> r == 35,
        16000 <= vram_mb < 24000 ==> r == 45,
        vram_mb >= 24000 ==> r == 60,
{
    if vram_mb < 4000 {
        8
    } else if vram_mb < 8000 {
        20
    } else if vram_mb < 12000 {
        28
    } else if vram_mb < 16000 {
        35
    } else if vram_mb < 24000 {
        45
    } else {
        60
    }
}

} // verus!
