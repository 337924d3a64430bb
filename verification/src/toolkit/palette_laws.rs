//! Laws of the color palette: which color tokens name a color.

use vstd::prelude::*;
use vstd::string::*;
use crate::text::all_digits;
use crate::toolkit::geometry::{color_of_hex, hex_value};
use crate::toolkit::tailwind::{
    amber_row, blue_row, color_of, cyan_row, emerald_row, family_and_shade, family_row,
    fuchsia_row, gray_row, green_row, indigo_row, last_dash, lime_row, neutral_row, orange_row,
    palette_of, pink_row, purple_row, red_row, rose_row, shade_index, sky_row, slate_row,
    stone_row, teal_row, violet_row, yellow_row, zinc_row,
};

verus! {

/// `#` and six hexadecimal digits.
pub open spec fn is_hex_color(s: Seq<char>) -> bool {
    &&& s.len() == 7
    &&& s[0] == '#'
    &&& forall|k: int| 1 <= k < 7 ==> hex_value(#[trigger] s[k]) is Some
}

/// Eleven hex colors.
pub open spec fn is_palette_row(row: Seq<Seq<char>>) -> bool {
    &&& row.len() == 11
    &&& forall|i: int| 0 <= i < 11 ==> is_hex_color(#[trigger] row[i])
}

proof fn lemma_hex_color_is_opaque(s: Seq<char>)
    requires
        is_hex_color(s),
    ensures
        color_of_hex(s) is Some,
        color_of_hex(s)->0.a == 255,
{
    let d = s.skip(1);
    assert(forall|k: int| 0 <= k < 6 ==> #[trigger] d[k] == s[k + 1]);
    assert(hex_value(s[1]) is Some && hex_value(s[2]) is Some && hex_value(s[3]) is Some);
    assert(hex_value(s[4]) is Some && hex_value(s[5]) is Some && hex_value(s[6]) is Some);
}

proof fn lemma_slate_row()
    ensures
        is_palette_row(slate_row()),
{
    reveal_strlit("#f8fafc");
    reveal_strlit("#f1f5f9");
    reveal_strlit("#e2e8f0");
    reveal_strlit("#cbd5e1");
    reveal_strlit("#94a3b8");
    reveal_strlit("#64748b");
    reveal_strlit("#475569");
    reveal_strlit("#334155");
    reveal_strlit("#1e293b");
    reveal_strlit("#0f172a");
    reveal_strlit("#020617");
}

proof fn lemma_gray_row()
    ensures
        is_palette_row(gray_row()),
{
    reveal_strlit("#f9fafb");
    reveal_strlit("#f3f4f6");
    reveal_strlit("#e5e7eb");
    reveal_strlit("#d1d5db");
    reveal_strlit("#9ca3af");
    reveal_strlit("#6b7280");
    reveal_strlit("#4b5563");
    reveal_strlit("#374151");
    reveal_strlit("#1f2937");
    reveal_strlit("#111827");
    reveal_strlit("#030712");
}

proof fn lemma_zinc_row()
    ensures
        is_palette_row(zinc_row()),
{
    reveal_strlit("#fafafa");
    reveal_strlit("#f4f4f5");
    reveal_strlit("#e4e4e7");
    reveal_strlit("#d4d4d8");
    reveal_strlit("#a1a1aa");
    reveal_strlit("#71717a");
    reveal_strlit("#52525b");
    reveal_strlit("#3f3f46");
    reveal_strlit("#27272a");
    reveal_strlit("#18181b");
    reveal_strlit("#09090b");
}

proof fn lemma_neutral_row()
    ensures
        is_palette_row(neutral_row()),
{
    reveal_strlit("#fafafa");
    reveal_strlit("#f5f5f5");
    reveal_strlit("#e5e5e5");
    reveal_strlit("#d4d4d4");
    reveal_strlit("#a3a3a3");
    reveal_strlit("#737373");
    reveal_strlit("#525252");
    reveal_strlit("#404040");
    reveal_strlit("#262626");
    reveal_strlit("#171717");
    reveal_strlit("#0a0a0a");
}

proof fn lemma_stone_row()
    ensures
        is_palette_row(stone_row()),
{
    reveal_strlit("#fafaf9");
    reveal_strlit("#f5f5f4");
    reveal_strlit("#e7e5e4");
    reveal_strlit("#d6d3d1");
    reveal_strlit("#a8a29e");
    reveal_strlit("#78716c");
    reveal_strlit("#57534e");
    reveal_strlit("#44403c");
    reveal_strlit("#292524");
    reveal_strlit("#1c1917");
    reveal_strlit("#0c0a09");
}

proof fn lemma_red_row()
    ensures
        is_palette_row(red_row()),
{
    reveal_strlit("#fef2f2");
    reveal_strlit("#fee2e2");
    reveal_strlit("#fecaca");
    reveal_strlit("#fca5a5");
    reveal_strlit("#f87171");
    reveal_strlit("#ef4444");
    reveal_strlit("#dc2626");
    reveal_strlit("#b91c1c");
    reveal_strlit("#991b1b");
    reveal_strlit("#7f1d1d");
    reveal_strlit("#450a0a");
}

proof fn lemma_orange_row()
    ensures
        is_palette_row(orange_row()),
{
    reveal_strlit("#fff7ed");
    reveal_strlit("#ffedd5");
    reveal_strlit("#fed7aa");
    reveal_strlit("#fdba74");
    reveal_strlit("#fb923c");
    reveal_strlit("#f97316");
    reveal_strlit("#ea580c");
    reveal_strlit("#c2410c");
    reveal_strlit("#9a3412");
    reveal_strlit("#7c2d12");
    reveal_strlit("#431407");
}

proof fn lemma_amber_row()
    ensures
        is_palette_row(amber_row()),
{
    reveal_strlit("#fffbeb");
    reveal_strlit("#fef3c7");
    reveal_strlit("#fde68a");
    reveal_strlit("#fcd34d");
    reveal_strlit("#fbbf24");
    reveal_strlit("#f59e0b");
    reveal_strlit("#d97706");
    reveal_strlit("#b45309");
    reveal_strlit("#92400e");
    reveal_strlit("#78350f");
    reveal_strlit("#451a03");
}

proof fn lemma_yellow_row()
    ensures
        is_palette_row(yellow_row()),
{
    reveal_strlit("#fefce8");
    reveal_strlit("#fef9c3");
    reveal_strlit("#fef08a");
    reveal_strlit("#fde047");
    reveal_strlit("#facc15");
    reveal_strlit("#eab308");
    reveal_strlit("#ca8a04");
    reveal_strlit("#a16207");
    reveal_strlit("#854d0e");
    reveal_strlit("#713f12");
    reveal_strlit("#422006");
}

proof fn lemma_lime_row()
    ensures
        is_palette_row(lime_row()),
{
    reveal_strlit("#f7fee7");
    reveal_strlit("#ecfccb");
    reveal_strlit("#d9f99d");
    reveal_strlit("#bef264");
    reveal_strlit("#a3e635");
    reveal_strlit("#84cc16");
    reveal_strlit("#65a30d");
    reveal_strlit("#4d7c0f");
    reveal_strlit("#3f6212");
    reveal_strlit("#365314");
    reveal_strlit("#1a2e05");
}

proof fn lemma_green_row()
    ensures
        is_palette_row(green_row()),
{
    reveal_strlit("#f0fdf4");
    reveal_strlit("#dcfce7");
    reveal_strlit("#bbf7d0");
    reveal_strlit("#86efac");
    reveal_strlit("#4ade80");
    reveal_strlit("#22c55e");
    reveal_strlit("#16a34a");
    reveal_strlit("#15803d");
    reveal_strlit("#166534");
    reveal_strlit("#14532d");
    reveal_strlit("#052e16");
}

proof fn lemma_emerald_row()
    ensures
        is_palette_row(emerald_row()),
{
    reveal_strlit("#ecfdf5");
    reveal_strlit("#d1fae5");
    reveal_strlit("#a7f3d0");
    reveal_strlit("#6ee7b7");
    reveal_strlit("#34d399");
    reveal_strlit("#10b981");
    reveal_strlit("#059669");
    reveal_strlit("#047857");
    reveal_strlit("#065f46");
    reveal_strlit("#064e3b");
    reveal_strlit("#022c22");
}

proof fn lemma_teal_row()
    ensures
        is_palette_row(teal_row()),
{
    reveal_strlit("#f0fdfa");
    reveal_strlit("#ccfbf1");
    reveal_strlit("#99f6e4");
    reveal_strlit("#5eead4");
    reveal_strlit("#2dd4bf");
    reveal_strlit("#14b8a6");
    reveal_strlit("#0d9488");
    reveal_strlit("#0f766e");
    reveal_strlit("#115e59");
    reveal_strlit("#134e4a");
    reveal_strlit("#042f2e");
}

proof fn lemma_cyan_row()
    ensures
        is_palette_row(cyan_row()),
{
    reveal_strlit("#ecfeff");
    reveal_strlit("#cffafe");
    reveal_strlit("#a5f3fc");
    reveal_strlit("#67e8f9");
    reveal_strlit("#22d3ee");
    reveal_strlit("#06b6d4");
    reveal_strlit("#0891b2");
    reveal_strlit("#0e7490");
    reveal_strlit("#155e75");
    reveal_strlit("#164e63");
    reveal_strlit("#083344");
}

proof fn lemma_sky_row()
    ensures
        is_palette_row(sky_row()),
{
    reveal_strlit("#f0f9ff");
    reveal_strlit("#e0f2fe");
    reveal_strlit("#bae6fd");
    reveal_strlit("#7dd3fc");
    reveal_strlit("#38bdf8");
    reveal_strlit("#0ea5e9");
    reveal_strlit("#0284c7");
    reveal_strlit("#0369a1");
    reveal_strlit("#075985");
    reveal_strlit("#0c4a6e");
    reveal_strlit("#082f49");
}

proof fn lemma_blue_row()
    ensures
        is_palette_row(blue_row()),
{
    reveal_strlit("#eff6ff");
    reveal_strlit("#dbeafe");
    reveal_strlit("#bfdbfe");
    reveal_strlit("#93c5fd");
    reveal_strlit("#60a5fa");
    reveal_strlit("#3b82f6");
    reveal_strlit("#2563eb");
    reveal_strlit("#1d4ed8");
    reveal_strlit("#1e40af");
    reveal_strlit("#1e3a8a");
    reveal_strlit("#172554");
}

proof fn lemma_indigo_row()
    ensures
        is_palette_row(indigo_row()),
{
    reveal_strlit("#eef2ff");
    reveal_strlit("#e0e7ff");
    reveal_strlit("#c7d2fe");
    reveal_strlit("#a5b4fc");
    reveal_strlit("#818cf8");
    reveal_strlit("#6366f1");
    reveal_strlit("#4f46e5");
    reveal_strlit("#4338ca");
    reveal_strlit("#3730a3");
    reveal_strlit("#312e81");
    reveal_strlit("#1e1b4b");
}

proof fn lemma_violet_row()
    ensures
        is_palette_row(violet_row()),
{
    reveal_strlit("#f5f3ff");
    reveal_strlit("#ede9fe");
    reveal_strlit("#ddd6fe");
    reveal_strlit("#c4b5fd");
    reveal_strlit("#a78bfa");
    reveal_strlit("#8b5cf6");
    reveal_strlit("#7c3aed");
    reveal_strlit("#6d28d9");
    reveal_strlit("#5b21b6");
    reveal_strlit("#4c1d95");
    reveal_strlit("#2e1065");
}

proof fn lemma_purple_row()
    ensures
        is_palette_row(purple_row()),
{
    reveal_strlit("#faf5ff");
    reveal_strlit("#f3e8ff");
    reveal_strlit("#e9d5ff");
    reveal_strlit("#d8b4fe");
    reveal_strlit("#c084fc");
    reveal_strlit("#a855f7");
    reveal_strlit("#9333ea");
    reveal_strlit("#7e22ce");
    reveal_strlit("#6b21a8");
    reveal_strlit("#581c87");
    reveal_strlit("#3b0764");
}

proof fn lemma_fuchsia_row()
    ensures
        is_palette_row(fuchsia_row()),
{
    reveal_strlit("#fdf4ff");
    reveal_strlit("#fae8ff");
    reveal_strlit("#f5d0fe");
    reveal_strlit("#f0abfc");
    reveal_strlit("#e879f9");
    reveal_strlit("#d946ef");
    reveal_strlit("#c026d3");
    reveal_strlit("#a21caf");
    reveal_strlit("#86198f");
    reveal_strlit("#701a75");
    reveal_strlit("#4a044e");
}

proof fn lemma_pink_row()
    ensures
        is_palette_row(pink_row()),
{
    reveal_strlit("#fdf2f8");
    reveal_strlit("#fce7f3");
    reveal_strlit("#fbcfe8");
    reveal_strlit("#f9a8d4");
    reveal_strlit("#f472b6");
    reveal_strlit("#ec4899");
    reveal_strlit("#db2777");
    reveal_strlit("#be185d");
    reveal_strlit("#9d174d");
    reveal_strlit("#831843");
    reveal_strlit("#500724");
}

proof fn lemma_rose_row()
    ensures
        is_palette_row(rose_row()),
{
    reveal_strlit("#fff1f2");
    reveal_strlit("#ffe4e6");
    reveal_strlit("#fecdd3");
    reveal_strlit("#fda4af");
    reveal_strlit("#fb7185");
    reveal_strlit("#f43f5e");
    reveal_strlit("#e11d48");
    reveal_strlit("#be123c");
    reveal_strlit("#9f1239");
    reveal_strlit("#881337");
    reveal_strlit("#4c0519");
}

proof fn lemma_family_row(family: Seq<char>)
    requires
        family_row(family) is Some,
    ensures
        is_palette_row(family_row(family)->0),
{
    lemma_slate_row();
    lemma_gray_row();
    lemma_zinc_row();
    lemma_neutral_row();
    lemma_stone_row();
    lemma_red_row();
    lemma_orange_row();
    lemma_amber_row();
    lemma_yellow_row();
    lemma_lime_row();
    lemma_green_row();
    lemma_emerald_row();
    lemma_teal_row();
    lemma_cyan_row();
    lemma_sky_row();
    lemma_blue_row();
    lemma_indigo_row();
    lemma_violet_row();
    lemma_purple_row();
    lemma_fuchsia_row();
    lemma_pink_row();
    lemma_rose_row();
}

/// A family's name holds no `-`, and is no color of its own.
proof fn lemma_family_name(family: Seq<char>)
    requires
        family_row(family) is Some,
    ensures
        !family.contains('-'),
        family != "white"@,
        family != "black"@,
        family != "transparent"@,
{
    reveal_strlit("white");
    reveal_strlit("black");
    reveal_strlit("transparent");
    if family == "slate"@ {
        reveal_strlit("slate");
        assert(family.len() == 5 && family[0] == 's');
    } else if family == "gray"@ {
        reveal_strlit("gray");
        assert(family.len() == 4 && family[0] == 'g');
    } else if family == "zinc"@ {
        reveal_strlit("zinc");
        assert(family.len() == 4 && family[0] == 'z');
    } else if family == "neutral"@ {
        reveal_strlit("neutral");
        assert(family.len() == 7 && family[0] == 'n');
    } else if family == "stone"@ {
        reveal_strlit("stone");
        assert(family.len() == 5 && family[0] == 's');
    } else if family == "red"@ {
        reveal_strlit("red");
        assert(family.len() == 3 && family[0] == 'r');
    } else if family == "orange"@ {
        reveal_strlit("orange");
        assert(family.len() == 6 && family[0] == 'o');
    } else if family == "amber"@ {
        reveal_strlit("amber");
        assert(family.len() == 5 && family[0] == 'a');
    } else if family == "yellow"@ {
        reveal_strlit("yellow");
        assert(family.len() == 6 && family[0] == 'y');
    } else if family == "lime"@ {
        reveal_strlit("lime");
        assert(family.len() == 4 && family[0] == 'l');
    } else if family == "green"@ {
        reveal_strlit("green");
        assert(family.len() == 5 && family[0] == 'g');
    } else if family == "emerald"@ {
        reveal_strlit("emerald");
        assert(family.len() == 7 && family[0] == 'e');
    } else if family == "teal"@ {
        reveal_strlit("teal");
        assert(family.len() == 4 && family[0] == 't');
    } else if family == "cyan"@ {
        reveal_strlit("cyan");
        assert(family.len() == 4 && family[0] == 'c');
    } else if family == "sky"@ {
        reveal_strlit("sky");
        assert(family.len() == 3 && family[0] == 's');
    } else if family == "blue"@ {
        reveal_strlit("blue");
        assert(family.len() == 4 && family[0] == 'b');
    } else if family == "indigo"@ {
        reveal_strlit("indigo");
        assert(family.len() == 6 && family[0] == 'i');
    } else if family == "violet"@ {
        reveal_strlit("violet");
        assert(family.len() == 6 && family[0] == 'v');
    } else if family == "purple"@ {
        reveal_strlit("purple");
        assert(family.len() == 6 && family[0] == 'p');
    } else if family == "fuchsia"@ {
        reveal_strlit("fuchsia");
        assert(family.len() == 7 && family[0] == 'f');
    } else if family == "pink"@ {
        reveal_strlit("pink");
        assert(family.len() == 4 && family[0] == 'p');
    } else if family == "rose"@ {
        reveal_strlit("rose");
        assert(family.len() == 4 && family[0] == 'r');
    }
    assert("white"@.len() == 5 && "white"@[0] == 'w');
    assert("black"@.len() == 5 && "black"@[0] == 'b');
    assert("transparent"@.len() == 11);
}

/// A shade is made of digits.
proof fn lemma_shade_is_digits(shade: Seq<char>)
    requires
        shade_index(shade) is Some,
    ensures
        all_digits(shade),
        shade_index(shade)->0 < 11,
{
    reveal_strlit("50");
    reveal_strlit("100");
    reveal_strlit("200");
    reveal_strlit("300");
    reveal_strlit("400");
    reveal_strlit("500");
    reveal_strlit("600");
    reveal_strlit("700");
    reveal_strlit("800");
    reveal_strlit("900");
    reveal_strlit("950");
}

/// Where nothing from `from` on is a `-`, the last one stands below `from`.
proof fn lemma_last_dash(cs: Seq<char>, from: int, n: int)
    requires
        0 <= from <= n <= cs.len(),
        forall|k: int| from <= k < n ==> cs[k] != '-',
    ensures
        last_dash(cs, n) == last_dash(cs, from),
    decreases n - from,
{
    if from < n {
        lemma_last_dash(cs, from, n - 1);
    }
}

/// A token with a dash and digits at its end names the family before the dash,
/// in the shade after it.
proof fn lemma_token(family: Seq<char>, digits: Seq<char>)
    requires
        all_digits(digits),
    ensures
        family_and_shade(family + seq!['-'] + digits) == (family, digits),
        family + seq!['-'] + digits != "white"@,
        family + seq!['-'] + digits != "black"@,
        family + seq!['-'] + digits != "transparent"@,
{
    let token = family + seq!['-'] + digits;
    let at = family.len() as int;
    assert forall|k: int| at + 1 <= k < token.len() implies token[k] != '-' by {
        assert(token[k] == digits[k - at - 1]);
    }
    assert(token[at] == '-');
    lemma_last_dash(token, at + 1, token.len() as int);
    assert(token.take(at) =~= family);
    assert(token.skip(at + 1) =~= digits);
    reveal_strlit("white");
    reveal_strlit("black");
    reveal_strlit("transparent");
}

/// Every family in every shade is an opaque color: the one that the palette
/// gives in hexadecimal digits.
pub proof fn law_palette_color_is_opaque(family: Seq<char>, shade: Seq<char>)
    requires
        family_row(family) is Some,
        shade_index(shade) is Some,
    ensures
        color_of(family + seq!['-'] + shade) is Some,
        color_of(family + seq!['-'] + shade)->0.a == 255,
        palette_of(family, shade) is Some,
        color_of(family + seq!['-'] + shade) == color_of_hex(palette_of(family, shade)->0),
{
    lemma_family_row(family);
    lemma_shade_is_digits(shade);
    lemma_token(family, shade);
    lemma_hex_color_is_opaque(family_row(family)->0[shade_index(shade)->0]);
}

/// A bare family is its middle shade.
pub proof fn law_bare_family_is_its_middle_shade(family: Seq<char>)
    requires
        family_row(family) is Some,
    ensures
        color_of(family) == color_of(family + seq!['-'] + "500"@),
{
    lemma_family_name(family);
    assert forall|k: int| 0 <= k < family.len() implies family[k] != '-' by {
        assert(family.contains(family[k]));
    }
    lemma_last_dash(family, 0, family.len() as int);
    reveal_strlit("500");
    lemma_token(family, "500"@);
}

/// Digits that are no shade name no color, whatever stands before them.
pub proof fn law_other_digits_name_no_color(family: Seq<char>, digits: Seq<char>)
    requires
        all_digits(digits),
        shade_index(digits) is None,
    ensures
        color_of(family + seq!['-'] + digits) is None,
{
    lemma_token(family, digits);
}

/// A shade of what is no family names no color.
pub proof fn law_unknown_family_names_no_color(family: Seq<char>, digits: Seq<char>)
    requires
        all_digits(digits),
        family_row(family) is None,
    ensures
        color_of(family + seq!['-'] + digits) is None,
{
    lemma_token(family, digits);
}

} // verus!
