//! Compressed-tensors checkpoints, uniform or mixed-precision.
//!
//! Modules that stay unquantized are listed as ignored. In a mixed-precision checkpoint groups of
//! module patterns name the format of the modules they match.
use crate::format::AllocFormat;
use crate::text::{
    find_text, has_substring, lower, lowered, lowering_goes_by_character, middle_pieces_occur,
    occurs_at, what_occurs_is_a_middle_piece,
};
use vstd::prelude::*;

verus! {

/// How a module's weights are stored.
#[derive(Debug, Clone, Copy, PartialEq, Eq, Structural)]
pub enum Nvfp4Variant {
    Standard,
    CompressedTensors,
    Fp8Dequanted,
    Bf16Raw,
    MxFp8,
}

/// A compressed-tensors NVFP4 or mixed-precision checkpoint.
#[derive(Debug)]
pub struct CompressedTensorsFormat {
    /// Format string of the checkpoint, such as `nvfp4-pack-quantized` or `mixed-precision`.
    pub format: String,
    /// Patterns of modules that stay BF16.
    pub ignore_modules: Vec<String>,
    /// Format names, each with the patterns of the modules it applies to.
    pub config_groups: Vec<(String, Vec<String>)>,
}

/// The variant that a format name stands for, letter case aside.
pub open spec fn variant_of(format: Seq<char>) -> Option<Nvfp4Variant> {
    let s = lower(format);
    if has_substring(s, "fp4"@) {
        Some(Nvfp4Variant::CompressedTensors)
    } else if has_substring(s, "mxfp8"@) || (has_substring(s, "fp8"@) && has_substring(s, "mx"@)) {
        Some(Nvfp4Variant::MxFp8)
    } else if has_substring(s, "bf16"@) || has_substring(s, "bfloat16"@) || has_substring(
        s,
        "float-quantized"@,
    ) {
        Some(Nvfp4Variant::Bf16Raw)
    } else if has_substring(s, "fp8"@) || has_substring(s, "float8"@) {
        Some(Nvfp4Variant::Fp8Dequanted)
    } else {
        None
    }
}

/// A name that holds `nvfp4` holds `fp4`.
proof fn nvfp4_holds_fp4(s: Seq<char>)
    ensures
        has_substring(s, "nvfp4"@) ==> has_substring(s, "fp4"@),
{
    reveal_strlit("nvfp4");
    reveal_strlit("fp4");
    if has_substring(s, "nvfp4"@) {
        let i = choose|i: int| occurs_at(s, "nvfp4"@, i);
        assert(s.subrange(i + 2, i + 5) =~= s.subrange(i, i + 5).subrange(2, 5));
        assert("nvfp4"@.subrange(2, 5) =~= "fp4"@);
        assert(occurs_at(s, "fp4"@, i + 2));
    }
}

/// The variant that a format name stands for.
pub fn format_to_variant(fmt: &str) -> (r: Option<Nvfp4Variant>)
    ensures
        r == variant_of(fmt@),
{
    let s: Vec<char> = lowered(fmt);
    proof {
        nvfp4_holds_fp4(s@);
    }
    if find_text(&s, "nvfp4") || find_text(&s, "fp4") {
        Some(Nvfp4Variant::CompressedTensors)
    } else if find_text(&s, "mxfp8") || (find_text(&s, "fp8") && find_text(&s, "mx")) {
        Some(Nvfp4Variant::MxFp8)
    } else if find_text(&s, "bf16") || find_text(&s, "bfloat16") || find_text(
        &s,
        "float-quantized",
    ) {
        Some(Nvfp4Variant::Bf16Raw)
    } else if find_text(&s, "fp8") || find_text(&s, "float8") {
        Some(Nvfp4Variant::Fp8Dequanted)
    } else {
        None
    }
}

/// Whether a matcher takes any module path and pattern, and always says the same of the same texts.
pub open spec fn is_matcher<F: Fn(&str, &str) -> bool>(matches: F) -> bool {
    &&& forall|m: &str, p: &str| #[trigger] call_requires(matches, (m, p))
    &&& forall|m: &str, p: &str, a: bool, n: &str, q: &str, b: bool|
        m@ == n@ && p@ == q@ && #[trigger] call_ensures(matches, (m, p), a)
            && #[trigger] call_ensures(matches, (n, q), b) ==> a == b
}

/// Whether a matcher says that a module path matches a pattern.
pub open spec fn hits<F: Fn(&str, &str) -> bool>(
    matches: F,
    module: Seq<char>,
    pattern: Seq<char>,
) -> bool {
    exists|m: &str, p: &str|
        m@ == module && p@ == pattern && #[trigger] call_ensures(matches, (m, p), true)
}

/// Whether a matcher says that a module path matches any of the patterns.
pub open spec fn hits_any<F: Fn(&str, &str) -> bool>(
    matches: F,
    module: Seq<char>,
    patterns: Seq<String>,
) -> bool {
    exists|i: int| 0 <= i < patterns.len() && #[trigger] hits(matches, module, patterns[i]@)
}

/// Whether group `g` is the first with a pattern that matches a module.
pub open spec fn first_hit<F: Fn(&str, &str) -> bool>(
    matches: F,
    module: Seq<char>,
    groups: Seq<(String, Vec<String>)>,
    g: int,
) -> bool {
    &&& 0 <= g < groups.len()
    &&& hits_any(matches, module, groups[g].1@)
    &&& forall|k: int| 0 <= k < g ==> !hits_any(matches, module, (#[trigger] groups[k]).1@)
}

/// Asks the matcher about one pattern.
fn ask<F: Fn(&str, &str) -> bool>(matches: &F, module: &str, pattern: &String) -> (r: bool)
    requires
        is_matcher(*matches),
    ensures
        r == hits(*matches, module@, pattern@),
{
    let p: &str = pattern.as_str();
    let r: bool = matches(module, p);
    assert(call_ensures(*matches, (module, p), r));
    r
}

/// Whether a module path matches any of the patterns.
fn ask_any<F: Fn(&str, &str) -> bool>(
    matches: &F,
    module: &str,
    patterns: &Vec<String>,
) -> (r: bool)
    requires
        is_matcher(*matches),
    ensures
        r == hits_any(*matches, module@, patterns@),
{
    for i in 0..patterns.len()
        invariant
            is_matcher(*matches),
            forall|k: int|
                0 <= k < i ==> !(#[trigger] hits(*matches, module@, patterns@[k]@)),
    {
        if ask(matches, module, &patterns[i]) {
            return true;
        }
    }
    false
}

impl CompressedTensorsFormat {
    /// A uniform checkpoint.
    pub fn new(format: String, ignore_modules: Vec<String>) -> (r: Self)
        ensures
            r.format == format,
            r.ignore_modules == ignore_modules,
            r.config_groups@.len() == 0,
    {
        CompressedTensorsFormat { format, ignore_modules, config_groups: Vec::new() }
    }

    /// A checkpoint with per-format groups.
    pub fn with_groups(
        format: String,
        ignore_modules: Vec<String>,
        config_groups: Vec<(String, Vec<String>)>,
    ) -> (r: Self)
        ensures
            r.format == format,
            r.ignore_modules == ignore_modules,
            r.config_groups == config_groups,
    {
        CompressedTensorsFormat { format, ignore_modules, config_groups }
    }

    /// Name of the checkpoint family.
    pub fn name(&self) -> (r: &'static str)
        ensures
            r@ == "compressed-tensors"@,
    {
        "compressed-tensors"
    }

    /// The variant of modules that nothing else is said of.
    pub fn base_variant(&self) -> (r: Nvfp4Variant)
        ensures
            r == Nvfp4Variant::CompressedTensors,
    {
        Nvfp4Variant::CompressedTensors
    }

    /// Whether a module stays unquantized; `matches` tells whether a module path matches a
    /// pattern.
    pub fn is_ignored<F: Fn(&str, &str) -> bool>(&self, module: &str, matches: &F) -> (r: bool)
        requires
            is_matcher(*matches),
        ensures
            r == hits_any(*matches, module@, self.ignore_modules@),
    {
        ask_any(matches, module, &self.ignore_modules)
    }

    /// The first group with a pattern that matches a module.
    pub fn matching_group<F: Fn(&str, &str) -> bool>(&self, module: &str, matches: &F) -> (r:
        Option<usize>)
        requires
            is_matcher(*matches),
        ensures
            match r {
                Some(g) => first_hit(*matches, module@, self.config_groups@, g as int),
                None => forall|k: int|
                    0 <= k < self.config_groups@.len() ==> !hits_any(
                        *matches,
                        module@,
                        (#[trigger] self.config_groups@[k]).1@,
                    ),
            },
    {
        for g in 0..self.config_groups.len()
            invariant
                is_matcher(*matches),
                forall|k: int|
                    0 <= k < g ==> !hits_any(
                        *matches,
                        module@,
                        (#[trigger] self.config_groups@[k]).1@,
                    ),
        {
            if ask_any(matches, module, &self.config_groups[g].1) {
                return Some(g);
            }
        }
        None
    }

    /// The variant of a module.
    ///
    /// An ignored module is BF16. Otherwise the first group that matches it decides. The base
    /// variant stands where no group matches, and where the format of that group is unknown.
    pub fn variant_for<F: Fn(&str, &str) -> bool>(
        &self,
        module: &str,
        matches: &F,
    ) -> (r: Nvfp4Variant)
        requires
            is_matcher(*matches),
        ensures
            self.decides_variant(*matches, module@, r),
    {
        if self.is_ignored(module, matches) {
            return Nvfp4Variant::Bf16Raw;
        }
        if let Some(g) = self.matching_group(module, matches) {
            if let Some(variant) = format_to_variant(self.config_groups[g].0.as_str()) {
                return variant;
            }
        }
        self.base_variant()
    }

    /// Whether `r` is the variant of a module.
    pub open spec fn decides_variant<F: Fn(&str, &str) -> bool>(
        self,
        matches: F,
        module: Seq<char>,
        r: Nvfp4Variant,
    ) -> bool {
        let groups = self.config_groups@;
        if hits_any(matches, module, self.ignore_modules@) {
            r == Nvfp4Variant::Bf16Raw
        } else if exists|g: int| first_hit(matches, module, groups, g) {
            exists|g: int| #[trigger]
                first_hit(matches, module, groups, g) && r == match variant_of(groups[g].0@) {
                    Some(v) => v,
                    None => Nvfp4Variant::CompressedTensors,
                }
        } else {
            r == Nvfp4Variant::CompressedTensors
        }
    }
}

/// A module has one variant.
pub proof fn variant_is_unique<F: Fn(&str, &str) -> bool>(
    c: CompressedTensorsFormat,
    matches: F,
    module: Seq<char>,
    a: Nvfp4Variant,
    b: Nvfp4Variant,
)
    requires
        c.decides_variant(matches, module, a),
        c.decides_variant(matches, module, b),
    ensures
        a == b,
{
    let groups = c.config_groups@;
    assert forall|g: int, h: int|
        first_hit(matches, module, groups, g) && first_hit(matches, module, groups, h) implies g
        == h by {
        if g < h {
            assert(!hits_any(matches, module, groups[g].1@));
        } else if h < g {
            assert(!hits_any(matches, module, groups[h].1@));
        }
    }
}

/// A module whose first matching group names an unknown format is of the base variant, whatever
/// later groups say.
pub proof fn unknown_formats_fall_back<F: Fn(&str, &str) -> bool>(
    c: CompressedTensorsFormat,
    matches: F,
    module: Seq<char>,
    g: int,
    r: Nvfp4Variant,
)
    requires
        !hits_any(matches, module, c.ignore_modules@),
        first_hit(matches, module, c.config_groups@, g),
        variant_of(c.config_groups@[g].0@) is None,
        c.decides_variant(matches, module, r),
    ensures
        r == Nvfp4Variant::CompressedTensors,
{
    assert(c.decides_variant(matches, module, Nvfp4Variant::CompressedTensors));
    variant_is_unique(c, matches, module, r, Nvfp4Variant::CompressedTensors);
}

/// Without groups every module that is not ignored is of the base variant.
pub proof fn uniform_without_groups<F: Fn(&str, &str) -> bool>(
    c: CompressedTensorsFormat,
    matches: F,
    module: Seq<char>,
    r: Nvfp4Variant,
)
    requires
        c.config_groups@.len() == 0,
        c.decides_variant(matches, module, r),
    ensures
        r == if hits_any(matches, module, c.ignore_modules@) {
            Nvfp4Variant::Bf16Raw
        } else {
            Nvfp4Variant::CompressedTensors
        },
{
}

/// Letter case makes no difference to what a format name stands for.
pub proof fn variants_ignore_case(a: Seq<char>, b: Seq<char>)
    requires
        lower(a) == lower(b),
    ensures
        variant_of(a) == variant_of(b),
{
}

/// The names under which assignments list formats are loaded as those formats.
pub proof fn assigned_names_load_as_assigned(f: AllocFormat)
    ensures
        variant_of(f.label()) == Some(
            match f {
                AllocFormat::Nvfp4 => Nvfp4Variant::CompressedTensors,
                AllocFormat::Mxfp8 => Nvfp4Variant::MxFp8,
                AllocFormat::Bf16 => Nvfp4Variant::Bf16Raw,
            },
        ),
{
    reveal_strlit("NVFP4");
    reveal_strlit("MXFP8");
    reveal_strlit("BF16");
    reveal_strlit("fp4");
    reveal_strlit("mxfp8");
    reveal_strlit("fp8");
    reveal_strlit("mx");
    reveal_strlit("bf16");
    let s = lower(f.label());
    match f {
        AllocFormat::Nvfp4 => {
            assert(s.subrange(2, 5) =~= "fp4"@);
            assert(occurs_at(s, "fp4"@, 2));
        },
        AllocFormat::Mxfp8 => {
            assert forall|i: int| !occurs_at(s, "fp4"@, i) by {
                if occurs_at(s, "fp4"@, i) {
                    assert(s.subrange(i, i + 3)[0] == 'f');
                    assert(s.subrange(i, i + 3)[2] == '4');
                    assert(s[i + 2] == '4');
                }
            }
            assert(s.subrange(0, 5) =~= "mxfp8"@);
            assert(occurs_at(s, "mxfp8"@, 0));
        },
        AllocFormat::Bf16 => {
            assert forall|i: int| !occurs_at(s, "fp4"@, i) by {
                if occurs_at(s, "fp4"@, i) {
                    assert(s.subrange(i, i + 3)[1] == 'p');
                    assert(s[i + 1] == 'p');
                }
            }
            assert forall|i: int| !occurs_at(s, "fp8"@, i) by {
                if occurs_at(s, "fp8"@, i) {
                    assert(s.subrange(i, i + 3)[1] == 'p');
                    assert(s[i + 1] == 'p');
                }
            }
            assert(s.subrange(0, 4) =~= "bf16"@);
            assert(occurs_at(s, "bf16"@, 0));
        },
    }
}

/// A piece of a piece is a piece.
proof fn pieces_of_pieces_occur(s: Seq<char>, outer: Seq<char>, inner: Seq<char>)
    requires
        has_substring(s, outer),
        has_substring(outer, inner),
    ensures
        has_substring(s, inner),
{
    what_occurs_is_a_middle_piece(s, outer);
    what_occurs_is_a_middle_piece(outer, inner);
    let (a, b) = choose|a: Seq<char>, b: Seq<char>| s == #[trigger] (a + outer + b);
    let (c, d) = choose|c: Seq<char>, d: Seq<char>| outer == #[trigger] (c + inner + d);
    assert(s =~= (a + c) + inner + (d + b));
    middle_pieces_occur(a + c, inner, d + b);
}

/// A name that holds `mxfp8` holds `fp8` and `mx`.
proof fn mxfp8_holds_both(s: Seq<char>)
    requires
        has_substring(s, "mxfp8"@),
    ensures
        has_substring(s, "fp8"@),
        has_substring(s, "mx"@),
{
    reveal_strlit("mxfp8");
    reveal_strlit("fp8");
    reveal_strlit("mx");
    let none = Seq::<char>::empty();
    assert("mxfp8"@ =~= "mx"@ + "fp8"@ + none);
    assert("mxfp8"@ =~= none + "mx"@ + "fp8"@);
    middle_pieces_occur("mx"@, "fp8"@, none);
    middle_pieces_occur(none, "mx"@, "fp8"@);
    pieces_of_pieces_occur(s, "mxfp8"@, "fp8"@);
    pieces_of_pieces_occur(s, "mxfp8"@, "mx"@);
}

/// NVFP4 are the names that hold `fp4`, in whatever letter case.
pub proof fn names_with_fp4_are_nvfp4(s: Seq<char>)
    ensures
        variant_of(s) == Some(Nvfp4Variant::CompressedTensors) <==> has_substring(lower(s), "fp4"@),
{
}

/// MXFP8 are the names that hold both `fp8` and `mx`, and no `fp4`.
pub proof fn names_with_mx_and_fp8_are_mxfp8(s: Seq<char>)
    ensures
        variant_of(s) == Some(Nvfp4Variant::MxFp8) <==> has_substring(lower(s), "fp8"@)
            && has_substring(lower(s), "mx"@) && !has_substring(lower(s), "fp4"@),
{
    if has_substring(lower(s), "mxfp8"@) {
        mxfp8_holds_both(lower(s));
    }
}

/// BF16 are the names that hold a mark of BF16 and none of the quantized formats before it.
pub proof fn names_with_bf16_are_bf16(s: Seq<char>)
    ensures
        variant_of(s) == Some(Nvfp4Variant::Bf16Raw) <==> (has_substring(lower(s), "bf16"@)
            || has_substring(lower(s), "bfloat16"@) || has_substring(lower(s), "float-quantized"@))
            && !has_substring(lower(s), "fp4"@) && !(has_substring(lower(s), "fp8"@)
            && has_substring(lower(s), "mx"@)),
{
    if has_substring(lower(s), "mxfp8"@) {
        mxfp8_holds_both(lower(s));
    }
}

/// FP8 are the names that hold `fp8` or `float8` and no mark of another format.
pub proof fn names_with_fp8_alone_are_fp8(s: Seq<char>)
    ensures
        variant_of(s) == Some(Nvfp4Variant::Fp8Dequanted) <==> (has_substring(lower(s), "fp8"@)
            || has_substring(lower(s), "float8"@)) && !has_substring(lower(s), "fp4"@) && !(
        has_substring(lower(s), "fp8"@) && has_substring(lower(s), "mx"@)) && !has_substring(
            lower(s),
            "bf16"@,
        ) && !has_substring(lower(s), "bfloat16"@) && !has_substring(lower(s), "float-quantized"@),
{
    if has_substring(lower(s), "mxfp8"@) {
        mxfp8_holds_both(lower(s));
    }
}

/// Unknown are the names that hold no mark of any format. None stands for the standard variant.
pub proof fn names_without_marks_are_unknown(s: Seq<char>)
    ensures
        variant_of(s) is None <==> !has_substring(lower(s), "fp4"@) && !has_substring(
            lower(s),
            "fp8"@,
        ) && !has_substring(lower(s), "bf16"@) && !has_substring(lower(s), "bfloat16"@)
            && !has_substring(lower(s), "float-quantized"@) && !has_substring(lower(s), "float8"@),
        variant_of(s) != Some(Nvfp4Variant::Standard),
{
    if has_substring(lower(s), "mxfp8"@) {
        mxfp8_holds_both(lower(s));
    }
}

/// A mark counts wherever it stands in a name, in whatever letter case, and whatever else stands
/// around it.
pub proof fn marks_count_anywhere(before: Seq<char>, mark: Seq<char>, after: Seq<char>)
    ensures
        lower(mark) == "fp4"@ || lower(mark) == "nvfp4"@ ==> variant_of(before + mark + after)
            == Some(Nvfp4Variant::CompressedTensors),
        lower(mark) == "mxfp8"@ && !has_substring(lower(before + mark + after), "fp4"@)
            ==> variant_of(before + mark + after) == Some(Nvfp4Variant::MxFp8),
        (lower(mark) == "bf16"@ || lower(mark) == "bfloat16"@ || lower(mark) == "float-quantized"@)
            && !has_substring(lower(before + mark + after), "fp4"@) && !has_substring(
            lower(before + mark + after),
            "fp8"@,
        ) ==> variant_of(before + mark + after) == Some(Nvfp4Variant::Bf16Raw),
        (lower(mark) == "fp8"@ || lower(mark) == "float8"@) && !has_substring(
            lower(before + mark + after),
            "fp4"@,
        ) && !has_substring(lower(before + mark + after), "mx"@) && !has_substring(
            lower(before + mark + after),
            "bf16"@,
        ) && !has_substring(lower(before + mark + after), "bfloat16"@) && !has_substring(
            lower(before + mark + after),
            "float-quantized"@,
        ) ==> variant_of(before + mark + after) == Some(Nvfp4Variant::Fp8Dequanted),
{
    let s = before + mark + after;
    lowering_goes_by_character(before + mark, after);
    lowering_goes_by_character(before, mark);
    middle_pieces_occur(lower(before), lower(mark), lower(after));
    assert(has_substring(lower(s), lower(mark)));
    nvfp4_holds_fp4(lower(s));
    if lower(mark) == "mxfp8"@ {
        mxfp8_holds_both(lower(s));
    }
    if has_substring(lower(s), "mxfp8"@) {
        mxfp8_holds_both(lower(s));
    }
}

/// A module path matches a pattern where the matcher says so.
pub proof fn the_matcher_decides<F: Fn(&str, &str) -> bool>(
    matches: F,
    module: &str,
    pattern: &str,
    answer: bool,
)
    requires
        is_matcher(matches),
        call_ensures(matches, (module, pattern), answer),
    ensures
        hits(matches, module@, pattern@) == answer,
{
}

/// A module that any pattern of a list matches is one that the list matches, and no other is.
pub proof fn any_pattern_will_do<F: Fn(&str, &str) -> bool>(
    matches: F,
    module: Seq<char>,
    patterns: Seq<String>,
)
    ensures
        (forall|i: int|
            0 <= i < patterns.len() ==> !(#[trigger] hits(matches, module, patterns[i]@)))
            <==> !hits_any(matches, module, patterns),
{
}

/// A module that an ignore pattern matches stays BF16, whatever the groups say.
pub proof fn ignored_modules_stay_bf16<F: Fn(&str, &str) -> bool>(
    c: CompressedTensorsFormat,
    matches: F,
    module: Seq<char>,
    i: int,
    r: Nvfp4Variant,
)
    requires
        c.decides_variant(matches, module, r),
        0 <= i < c.ignore_modules@.len(),
        hits(matches, module, c.ignore_modules@[i]@),
    ensures
        r == Nvfp4Variant::Bf16Raw,
{
    assert(hits_any(matches, module, c.ignore_modules@));
}

/// The first group with a matching pattern decides over a module that is not ignored: by its
/// format name, and as the base variant where that name is unknown.
pub proof fn the_first_matching_group_decides<F: Fn(&str, &str) -> bool>(
    c: CompressedTensorsFormat,
    matches: F,
    module: Seq<char>,
    g: int,
    i: int,
    r: Nvfp4Variant,
)
    requires
        c.decides_variant(matches, module, r),
        forall|k: int|
            0 <= k < c.ignore_modules@.len() ==> !(#[trigger] hits(
                matches,
                module,
                c.ignore_modules@[k]@,
            )),
        0 <= g < c.config_groups@.len(),
        0 <= i < c.config_groups@[g].1@.len(),
        hits(matches, module, c.config_groups@[g].1@[i]@),
        forall|h: int, k: int|
            0 <= h < g && 0 <= k < c.config_groups@[h].1@.len() ==> !(#[trigger] hits(
                matches,
                module,
                c.config_groups@[h].1@[k]@,
            )),
    ensures
        variant_of(c.config_groups@[g].0@) is Some ==> variant_of(c.config_groups@[g].0@) == Some(
            r,
        ),
        variant_of(c.config_groups@[g].0@) is None ==> r == Nvfp4Variant::CompressedTensors,
{
    let groups = c.config_groups@;
    assert(!hits_any(matches, module, c.ignore_modules@));
    assert(hits_any(matches, module, groups[g].1@));
    assert forall|h: int| 0 <= h < g implies !hits_any(
        matches,
        module,
        (#[trigger] groups[h]).1@,
    ) by {
        if hits_any(matches, module, groups[h].1@) {
            let k = choose|k: int|
                0 <= k < groups[h].1@.len() && #[trigger] hits(
                    matches,
                    module,
                    groups[h].1@[k]@,
                );
            assert(hits(matches, module, c.config_groups@[h].1@[k]@));
        }
    }
    assert(first_hit(matches, module, groups, g));
    let v = match variant_of(groups[g].0@) {
        Some(v) => v,
        None => Nvfp4Variant::CompressedTensors,
    };
    assert(c.decides_variant(matches, module, v));
    variant_is_unique(c, matches, module, r, v);
}

/// A module that nothing matches is of the base variant.
pub proof fn unmatched_modules_are_of_the_base_variant<F: Fn(&str, &str) -> bool>(
    c: CompressedTensorsFormat,
    matches: F,
    module: Seq<char>,
    r: Nvfp4Variant,
)
    requires
        c.decides_variant(matches, module, r),
        forall|k: int|
            0 <= k < c.ignore_modules@.len() ==> !(#[trigger] hits(
                matches,
                module,
                c.ignore_modules@[k]@,
            )),
        forall|h: int, k: int|
            0 <= h < c.config_groups@.len() && 0 <= k < c.config_groups@[h].1@.len() ==> !(
            #[trigger] hits(matches, module, c.config_groups@[h].1@[k]@)),
    ensures
        r == Nvfp4Variant::CompressedTensors,
{
    let groups = c.config_groups@;
    assert(!hits_any(matches, module, c.ignore_modules@));
    assert forall|g: int| !first_hit(matches, module, groups, g) by {
        if first_hit(matches, module, groups, g) {
            let k = choose|k: int|
                0 <= k < groups[g].1@.len() && #[trigger] hits(
                    matches,
                    module,
                    groups[g].1@[k]@,
                );
            assert(hits(matches, module, c.config_groups@[g].1@[k]@));
        }
    }
}

/// The first hit is a group with a matching pattern, and no group before it has one.
pub proof fn first_hits_come_first<F: Fn(&str, &str) -> bool>(
    matches: F,
    module: Seq<char>,
    groups: Seq<(String, Vec<String>)>,
    g: int,
    h: int,
    k: int,
)
    requires
        first_hit(matches, module, groups, g),
        0 <= h < groups.len(),
        0 <= k < groups[h].1@.len(),
        hits(matches, module, groups[h].1@[k]@),
    ensures
        0 <= g <= h,
        exists|i: int|
            0 <= i < groups[g].1@.len() && #[trigger] hits(matches, module, groups[g].1@[i]@),
{
    assert(hits_any(matches, module, groups[h].1@));
    if h < g {
        assert(!hits_any(matches, module, groups[h].1@));
    }
}

} // verus!
