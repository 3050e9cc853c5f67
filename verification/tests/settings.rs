use van_world::settings::{is_whitespace, map_power, palette_name, rewrite_settings};

#[test]
fn white_space_is_that_of_unicode() {
    for u in 0..=0x10ffffu32 {
        if let Some(c) = char::from_u32(u) {
            assert_eq!(is_whitespace(c), c.is_whitespace(), "{u:x}");
        }
    }
}

#[test]
fn settings_are_rewritten() {
    let text = "[Global]\r\n  Map Power X = 11\nMap Power Y=14\r\n\tCompressed Format Using = 1\n; a note \nPalette File=fostral.pal\n";
    assert_eq!(
        rewrite_settings(text, 9, 12),
        "[Global]\nMap Power X=9\nMap Power Y=12\nCompressed Format Using=0\n; a note \nPalette File=fostral.pal"
    );
}

/// The same rewriting, by means of the standard library.
fn by_std(text: &str, px: u32, py: u32) -> String {
    text.lines()
        .map(|line| {
            let l = line.trim();
            if l.starts_with("Map Power X") {
                format!("Map Power X={px}")
            } else if l.starts_with("Map Power Y") {
                format!("Map Power Y={py}")
            } else if l.starts_with("Compressed Format Using") {
                "Compressed Format Using=0".to_string()
            } else {
                line.to_string()
            }
        })
        .collect::<Vec<_>>()
        .join("\n")
}

fn palette_by_std(text: &str) -> String {
    text.lines()
        .find_map(|l| l.trim().strip_prefix("Palette File="))
        .unwrap_or("harmony.pal")
        .trim()
        .to_string()
}

#[test]
fn odd_texts_are_rewritten_as_by_std() {
    let texts = [
        "",
        "\n",
        "\r\n",
        "\r",
        "a",
        "a\r",
        "a\r\r\nb",
        "\n\na\n\n",
        "\u{3000}Map Power X\u{85}\n\u{a0}Map Power Y",
        "Map Power\nmap power x\nMap Power Xyz",
        "x Palette File=no\n  Palette File=  a b.pal \t\r\nPalette File=second",
        "Palette File=",
        "Palette File=\u{2003}й.pal\u{2003}",
        "äöü\nCompressed Format Using: 1 \u{1f600}\n",
    ];
    for text in texts {
        assert_eq!(rewrite_settings(text, 7, 4_000_000_000), by_std(text, 7, 4_000_000_000));
        assert_eq!(palette_name(text), palette_by_std(text));
        let rewritten = rewrite_settings(text, 7, 8);
        assert_eq!(palette_name(&rewritten), palette_name(text));
    }
}

#[test]
fn the_palette_is_found() {
    assert_eq!(palette_name("a=b\n Palette File=x.pal \n"), "x.pal");
    assert_eq!(palette_name("a=b\n"), "harmony.pal");
}

#[test]
fn powers_of_two_have_exponents() {
    assert_eq!(map_power(0), None);
    assert_eq!(map_power(1), Some(0));
    assert_eq!(map_power(2), Some(1));
    assert_eq!(map_power(3), None);
    assert_eq!(map_power(2048), Some(11));
    assert_eq!(map_power(2047), None);
    assert_eq!(map_power(1 << 62), Some(62));
    assert_eq!(map_power(usize::MAX), None);
    assert_eq!(map_power(6), None);
}
