//! Fonts for the glyphs that the default fonts lack.

use vstd::prelude::*;

verus! {

/// A kind of glyph that needs a font of its own.
#[derive(Debug, Clone, Copy, PartialEq, Eq)]
pub enum Fallback {
    Cjk,
    Emoji,
}

/// A font file, and the face inside it.
pub struct FontFile {
    pub path: &'static str,
    pub index: u32,
}

/// The name under which a font is installed.
pub open spec fn font_key(fallback: Fallback) -> Seq<char> {
    match fallback {
        Fallback::Cjk => "cjk_fallback"@,
        Fallback::Emoji => "emoji_fallback"@,
    }
}

/// The paths at which a font is looked for, in order.
pub open spec fn font_paths(fallback: Fallback) -> Seq<Seq<char>> {
    match fallback {
        Fallback::Cjk => seq![
            "/usr/share/fonts/google-noto-sans-mono-cjk-vf-fonts/NotoSansMonoCJK-VF.ttc"@,
            "/usr/share/fonts/google-noto-sans-cjk-vf-fonts/NotoSansCJK-VF.ttc"@,
            "/usr/share/fonts/google-droid-sans-fonts/DroidSansFallbackFull.ttf"@,
        ],
        Fallback::Emoji => seq![
            "/usr/share/fonts/google-noto-color-emoji-fonts/Noto-COLRv1.ttf"@,
            "/usr/share/fonts/google-noto-emoji-fonts/NotoEmoji-Regular.ttf"@,
        ],
    }
}

/// The files in which a font is looked for, in order.
pub fn font_files(fallback: Fallback) -> (res: Vec<FontFile>)
    ensures
        res@.len() == font_paths(fallback).len(),
        forall|i: int|
            0 <= i < res@.len() ==> (#[trigger] res@[i]).path@ == font_paths(fallback)[i]
                && res@[i].index == 0,
        fallback == Fallback::Cjk ==> res@.len() == 3 && res@[0].path@
            == "/usr/share/fonts/google-noto-sans-mono-cjk-vf-fonts/NotoSansMonoCJK-VF.ttc"@
            && res@[1].path@ == "/usr/share/fonts/google-noto-sans-cjk-vf-fonts/NotoSansCJK-VF.ttc"@
            && res@[2].path@ == "/usr/share/fonts/google-droid-sans-fonts/DroidSansFallbackFull.ttf"@,
        fallback == Fallback::Emoji ==> res@.len() == 2 && res@[0].path@
            == "/usr/share/fonts/google-noto-color-emoji-fonts/Noto-COLRv1.ttf"@ && res@[1].path@
            == "/usr/share/fonts/google-noto-emoji-fonts/NotoEmoji-Regular.ttf"@,
{
    match fallback {
        Fallback::Cjk => vec![
            FontFile {
                path:
                    "/usr/share/fonts/google-noto-sans-mono-cjk-vf-fonts/NotoSansMonoCJK-VF.ttc",
                index: 0,
            },
            FontFile {
                path: "/usr/share/fonts/google-noto-sans-cjk-vf-fonts/NotoSansCJK-VF.ttc",
                index: 0,
            },
            FontFile {
                path: "/usr/share/fonts/google-droid-sans-fonts/DroidSansFallbackFull.ttf",
                index: 0,
            },
        ],
        Fallback::Emoji => vec![
            FontFile {
                path: "/usr/share/fonts/google-noto-color-emoji-fonts/Noto-COLRv1.ttf",
                index: 0,
            },
            FontFile {
                path: "/usr/share/fonts/google-noto-emoji-fonts/NotoEmoji-Regular.ttf",
                index: 0,
            },
        ],
    }
}

/// The candidate that is taken, given which of them could be read: the first.
pub fn first_readable(readable: &[bool]) -> (res: Option<usize>)
    ensures
        match res {
            Some(i) => {
                &&& i < readable@.len()
                &&& readable@[i as int]
                &&& forall|j: int| 0 <= j < i ==> !(#[trigger] readable@[j])
            },
            None => forall|j: int| 0 <= j < readable@.len() ==> !(#[trigger] readable@[j]),
        },
{
    let mut i: usize = 0;
    while i < readable.len()
        invariant
            i <= readable@.len(),
            forall|j: int| 0 <= j < i ==> !(#[trigger] readable@[j]),
        decreases readable@.len() - i,
    {
        if readable[i] {
            return Some(i);
        }
        i += 1;
    }
    None
}

/// The keys of the fonts that were found, in the order in which they are asked
/// for a glyph.
pub open spec fn installed_keys(cjk: bool, emoji: bool) -> Seq<Seq<char>> {
    let first = if cjk {
        seq![font_key(Fallback::Cjk)]
    } else {
        Seq::empty()
    };
    if emoji {
        first.push(font_key(Fallback::Emoji))
    } else {
        first
    }
}

/// The keys of the fonts to install, given which were found.
pub fn fonts_to_install(cjk: bool, emoji: bool) -> (res: Vec<&'static str>)
    ensures
        res@.len() == installed_keys(cjk, emoji).len(),
        forall|i: int|
            0 <= i < res@.len() ==> (#[trigger] res@[i])@ == installed_keys(cjk, emoji)[i],
{
    let mut res: Vec<&'static str> = Vec::new();
    if cjk {
        res.push("cjk_fallback");
    }
    if emoji {
        res.push("emoji_fallback");
    }
    res
}

/// Exactly the fonts that were found are installed, each under its own key, and
/// the one for CJK glyphs is asked before the one for emoji.
pub proof fn lemma_found_fonts_are_installed(cjk: bool, emoji: bool)
    ensures
        installed_keys(cjk, emoji).len() == (if cjk {
            1int
        } else {
            0
        }) + (if emoji {
            1int
        } else {
            0
        }),
        cjk ==> installed_keys(cjk, emoji).first() == "cjk_fallback"@,
        emoji ==> installed_keys(cjk, emoji).last() == "emoji_fallback"@,
{
}

} // verus!
