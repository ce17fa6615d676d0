//! Fonts for names the bundled one cannot draw.

use voxview::paths::{FilePath, Platform};
use voxview::sysfont::{
    candidates, script_of, scripts_beyond, usual_dirs, Fallbacks, FontPlaces, Script, Scripts,
    Verdict, MAX_BYTES, MAX_FONTS,
};

#[test]
fn ascii_and_european_names_need_no_fallback() {
    for name in [
        "barrel_wood_water",
        "chêne-ébène",
        "Ünterstützung",
        "здание",
        "Ελληνικά",
        "tiếng-việt",
        "half \u{2014} dash \u{2264} 3",
    ] {
        assert!(
            scripts_beyond(name).is_empty(),
            "{name} should not need a fallback"
        );
    }
}

#[test]
fn each_script_asks_for_its_own_font() {
    let cases = [
        ("橡木桶", Script::Han),
        ("たる", Script::Kana),
        ("통나무", Script::Hangul),
        ("\u{05D7}\u{05D1}\u{05D9}\u{05EA}", Script::MiddleEast),
        (
            "\u{0628}\u{0631}\u{0645}\u{064A}\u{0644}",
            Script::MiddleEast,
        ),
        ("\u{0E16}\u{0E31}\u{0E07}", Script::SouthEastAsian),
        ("\u{092C}\u{0948}\u{0930}\u{0932}", Script::Indic),
    ];
    for (name, want) in cases {
        let scripts = scripts_beyond(name);
        assert!(
            scripts.contains(want),
            "{name} should have asked for {want:?}, got {scripts:?}"
        );
    }
}

#[test]
fn a_japanese_name_asks_for_kana_as_well_as_han() {
    // The one case the Chinese fonts get wrong: they have the kanji and
    // not the kana, so both have to be requested.
    let scripts = scripts_beyond("樽たる_01.vox");
    assert!(scripts.contains(Script::Han));
    assert!(scripts.contains(Script::Kana));
}

#[test]
fn a_mixed_name_asks_only_for_the_part_that_needs_it() {
    let scripts = scripts_beyond("barrel_橡木桶_01.vox");
    assert!(scripts.contains(Script::Han));
    assert!(!scripts.contains(Script::Indic));
    assert!(scripts_beyond("barrel_oak_01.vox").is_empty());
}

#[test]
fn the_script_set_holds_every_script_at_once() {
    let mut set = Scripts::default();
    assert!(set.is_empty());
    for script in Script::all() {
        set.insert(script);
    }
    assert_eq!(set.iter().len(), Script::all().len());
    assert_eq!(set.union(Scripts::default()), set);
}

fn places(platform: Platform) -> FontPlaces {
    FontPlaces {
        platform,
        windows: FilePath {
            anchor: vec!["C:".into(), "\\".into()],
            names: vec!["Windows".into(), "Fonts".into()],
        },
        files: Vec::new(),
    }
}

#[test]
fn every_script_has_somewhere_to_look_on_this_platform() {
    for platform in [Platform::Windows, Platform::MacOs, Platform::Unix] {
        for script in Script::all() {
            let list = candidates(script, &places(platform));
            assert!(!list.is_empty(), "no candidates for {script:?}");
            for path in &list {
                assert!(!path.anchor.is_empty(), "{path:?} is not absolute");
            }
        }
    }
}

/// What loading comes to when every candidate is a file of one size.
fn load(wanted: Scripts, len: u64) -> Fallbacks {
    let mut fonts = Fallbacks::new();
    for script in wanted.iter() {
        if !fonts.has_room() {
            break;
        }
        for path in candidates(script, &places(Platform::Windows)) {
            match fonts.consider(&path, Some(len)) {
                Verdict::Covered => break,
                Verdict::Skip => continue,
                Verdict::Read => {
                    fonts.loaded(path, len);
                    break;
                }
            }
        }
    }
    fonts
}

#[test]
fn loading_fallbacks_never_panics_and_respects_the_budget() {
    let mut wanted = Scripts::default();
    for script in Script::all() {
        wanted.insert(script);
    }
    for len in [0, 1, 20_000_000, MAX_BYTES, u64::MAX] {
        let fonts = load(wanted, len);
        assert!(fonts.opened.len() <= MAX_FONTS);
        assert!(fonts.spent <= MAX_BYTES, "fallback fonts cost {}", fonts.spent);
    }
    assert!(load(wanted, 0).opened.is_empty());
    assert_eq!(load(wanted, MAX_BYTES).opened.len(), 1);
}

#[test]
fn nothing_is_loaded_for_a_library_that_does_not_need_it() {
    assert!(load(Scripts::default(), 1).opened.is_empty());
}

#[test]
fn a_font_found_in_a_directory_comes_before_the_usual_ones() {
    let mut here = places(Platform::Unix);
    let dirs = usual_dirs();
    assert!(!dirs.is_empty());
    let font = FilePath::rooted(dirs[0]).join("NotoSansCJK-Regular.ttc");
    here.files.push(font.clone());
    let list = candidates(Script::Han, &here);
    assert!(list.contains(&font));
}

#[test]
fn a_plain_letter_is_in_no_script() {
    assert_eq!(script_of('a'), None);
    assert_eq!(script_of('\u{4e00}'), Some(Script::Han));
}

#[test]
fn joined_sets_and_joined_texts_hold_the_scripts_of_both() {
    let (han, kana, none) = (
        scripts_beyond("樽"),
        scripts_beyond("たる"),
        scripts_beyond("barrel"),
    );
    assert_eq!(scripts_beyond("樽たる"), han.union(kana));
    assert_eq!(scripts_beyond("たる樽barrel"), kana.union(han).union(none));
    assert_eq!(han.union(kana), kana.union(han));
    assert_eq!(han.union(han), han);
    assert_eq!(han.union(none), han);
    let mut by_hand = Scripts::default();
    by_hand.insert(Script::Kana);
    by_hand.insert(Script::Han);
    by_hand.insert(Script::Kana);
    assert_eq!(by_hand, han.union(kana), "the order of insertion does not matter");
}
