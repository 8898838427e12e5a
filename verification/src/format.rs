//! The weight formats an allocator can hand out.
use crate::text::{lower, lowered, spells};
use vstd::prelude::*;

verus! {

/// A quantization format the allocator can assign to a linear layer.
#[derive(Debug, Clone, Copy, PartialEq, Eq, Hash, Structural)]
pub enum AllocFormat {
    /// NVFP4 E2M1: 4-bit weights with FP8 per-group scales.
    Nvfp4,
    /// MXFP8 E4M3: 8-bit weights with E8M0 block scales.
    Mxfp8,
    /// BF16 dense: 16-bit uncompressed weights.
    Bf16,
}

impl AllocFormat {
    /// Bits that one parameter takes.
    pub open spec fn bpp(self) -> nat {
        match self {
            AllocFormat::Nvfp4 => 4,
            AllocFormat::Mxfp8 => 8,
            AllocFormat::Bf16 => 16,
        }
    }

    /// Position in order of precision, lowest first.
    pub open spec fn precision(self) -> nat {
        match self {
            AllocFormat::Nvfp4 => 0,
            AllocFormat::Mxfp8 => 1,
            AllocFormat::Bf16 => 2,
        }
    }

    /// The name under which assignments list the format.
    pub open spec fn label(self) -> Seq<char> {
        match self {
            AllocFormat::Nvfp4 => "NVFP4"@,
            AllocFormat::Mxfp8 => "MXFP8"@,
            AllocFormat::Bf16 => "BF16"@,
        }
    }

    /// The format that a name stands for, letter case aside.
    pub open spec fn named(s: Seq<char>) -> Option<AllocFormat> {
        if lower(s) == "nvfp4"@ {
            Some(AllocFormat::Nvfp4)
        } else if lower(s) == "mxfp8"@ || lower(s) == "mxfp8_e4m3"@ {
            Some(AllocFormat::Mxfp8)
        } else if lower(s) == "bf16"@ || lower(s) == "bfloat16"@ {
            Some(AllocFormat::Bf16)
        } else {
            None
        }
    }

    /// Effective bits per parameter.
    pub fn effective_bpp(&self) -> (r: u64)
        ensures
            r == self.bpp(),
    {
        match self {
            AllocFormat::Nvfp4 => 4,
            AllocFormat::Mxfp8 => 8,
            AllocFormat::Bf16 => 16,
        }
    }

    /// Rank in order of precision, lowest first.
    pub fn rank(&self) -> (r: usize)
        ensures
            r == self.precision(),
    {
        match self {
            AllocFormat::Nvfp4 => 0,
            AllocFormat::Mxfp8 => 1,
            AllocFormat::Bf16 => 2,
        }
    }

    /// The name under which assignments list the format.
    pub fn name(&self) -> (r: String)
        ensures
            r@ == self.label(),
    {
        match self {
            AllocFormat::Nvfp4 => "NVFP4".to_string(),
            AllocFormat::Mxfp8 => "MXFP8".to_string(),
            AllocFormat::Bf16 => "BF16".to_string(),
        }
    }

    /// Reads a format name, letter case aside.
    pub fn parse_from_str(s: &str) -> (r: Option<Self>)
        ensures
            r == Self::named(s@),
    {
        let text: Vec<char> = lowered(s);
        if spells(&text, "nvfp4") {
            Some(AllocFormat::Nvfp4)
        } else if spells(&text, "mxfp8") || spells(&text, "mxfp8_e4m3") {
            Some(AllocFormat::Mxfp8)
        } else if spells(&text, "bf16") || spells(&text, "bfloat16") {
            Some(AllocFormat::Bf16)
        } else {
            None
        }
    }
}

/// A format's own name reads back as that format.
pub proof fn name_reads_back(f: AllocFormat)
    ensures
        AllocFormat::named(f.label()) == Some(f),
{
    reveal_strlit("NVFP4");
    reveal_strlit("MXFP8");
    reveal_strlit("BF16");
    reveal_strlit("nvfp4");
    reveal_strlit("mxfp8");
    reveal_strlit("mxfp8_e4m3");
    reveal_strlit("bf16");
    reveal_strlit("bfloat16");
    match f {
        AllocFormat::Nvfp4 => {
            assert(lower("NVFP4"@) =~= "nvfp4"@);
        },
        AllocFormat::Mxfp8 => {
            assert(lower("MXFP8"@) =~= "mxfp8"@);
            assert(lower("MXFP8"@)[0] != "nvfp4"@[0]);
        },
        AllocFormat::Bf16 => {
            assert(lower("BF16"@) =~= "bf16"@);
            assert(lower("BF16"@)[0] != "nvfp4"@[0]);
            assert(lower("BF16"@)[0] != "mxfp8"@[0]);
            assert(lower("BF16"@)[0] != "mxfp8_e4m3"@[0]);
        },
    }
}

/// Letter case makes no difference to what a name stands for.
pub proof fn names_ignore_case(a: Seq<char>, b: Seq<char>)
    requires
        lower(a) == lower(b),
    ensures
        AllocFormat::named(a) == AllocFormat::named(b),
{
}

/// More bits per parameter and higher precision are the same order.
pub proof fn bits_follow_precision(a: AllocFormat, b: AllocFormat)
    ensures
        a.precision() < b.precision() <==> a.bpp() < b.bpp(),
        a.bpp() == b.bpp() <==> a == b,
{
}

/// Each step up in precision doubles the bits, from the four bits of NVFP4 on.
pub proof fn bits_double_with_precision(a: AllocFormat, b: AllocFormat)
    ensures
        AllocFormat::Nvfp4.bpp() == 4 && AllocFormat::Nvfp4.precision() == 0,
        b.precision() == a.precision() + 1 ==> b.bpp() == 2 * a.bpp(),
        a == AllocFormat::Nvfp4 || a == AllocFormat::Mxfp8 ==> exists|up: AllocFormat| #[trigger]
            up.precision() == a.precision() + 1,
        a == AllocFormat::Bf16 ==> b.bpp() <= a.bpp(),
{
    assert(AllocFormat::Mxfp8.precision() == AllocFormat::Nvfp4.precision() + 1);
    assert(AllocFormat::Bf16.precision() == AllocFormat::Mxfp8.precision() + 1);
}

/// The names of each format, in whatever letter case, and no others.
pub proof fn formats_have_these_names_only(s: Seq<char>)
    ensures
        AllocFormat::named(s) == Some(AllocFormat::Nvfp4) <==> lower(s) == "nvfp4"@,
        AllocFormat::named(s) == Some(AllocFormat::Mxfp8) <==> (lower(s) == "mxfp8"@ || lower(s)
            == "mxfp8_e4m3"@),
        AllocFormat::named(s) == Some(AllocFormat::Bf16) <==> (lower(s) == "bf16"@ || lower(s)
            == "bfloat16"@),
{
    reveal_strlit("nvfp4");
    reveal_strlit("mxfp8");
    reveal_strlit("mxfp8_e4m3");
    reveal_strlit("bf16");
    reveal_strlit("bfloat16");
    assert("nvfp4"@[0] == 'n' && "mxfp8"@[0] == 'm' && "mxfp8_e4m3"@[0] == 'm' && "bf16"@[0] == 'b'
        && "bfloat16"@[0] == 'b');
}

/// Assignments list formats by their names in capitals.
pub proof fn labels_are_names_in_capitals(f: AllocFormat, i: int)
    requires
        0 <= i < f.label().len(),
    ensures
        !('a' <= f.label()[i] && f.label()[i] <= 'z'),
        AllocFormat::named(f.label()) == Some(f),
        !f.label().contains('_'),
{
    name_reads_back(f);
    reveal_strlit("NVFP4");
    reveal_strlit("MXFP8");
    reveal_strlit("BF16");
}

} // verus!
