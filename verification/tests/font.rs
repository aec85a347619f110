use pyxel_core::font::{BdfBoundingBox, BdfFont};

fn lines(text: &str) -> Vec<String> {
    text.lines().map(|l| l.to_string()).collect()
}

const SAMPLE: &str = "STARTFONT 2.1
FONTBOUNDINGBOX 6 8 0 -2
STARTCHAR A
ENCODING 65
DWIDTH 6 0
BBX 5 3 0 0
BITMAP
F8
88
70
ENDCHAR
STARTCHAR B
ENCODING 66
DWIDTH 4 0
BBX 3 1 1 0
BITMAP
A
ENDCHAR
ENDFONT";

#[test]
fn parse_reads_box_and_glyphs() {
    let font = BdfFont::parse(&lines(SAMPLE)).unwrap();
    assert_eq!(
        font.bounding_box,
        BdfBoundingBox {
            width: 6,
            height: 8,
            x: 0,
            y: -2
        }
    );
    let a = &font.glyphs[&65];
    assert_eq!(a.dwidth, 6);
    assert_eq!(
        a.bbx,
        BdfBoundingBox {
            width: 5,
            height: 3,
            x: 0,
            y: 0
        }
    );
    // rows hold the leftmost pixel in bit 0
    assert_eq!(a.bitmap, vec![0x1f, 0x11, 0x0e]);
    assert_eq!(font.glyphs[&66].bitmap, vec![0x5]);
}

#[test]
fn text_width_takes_widest_line_and_skips_unknown() {
    let font = BdfFont::parse(&lines(SAMPLE)).unwrap();
    assert_eq!(font.text_width("AB"), 10);
    assert_eq!(font.text_width("A\nABB"), 14);
    assert_eq!(font.text_width("A\u{200b}Z"), 6);
    assert_eq!(font.text_width(""), 0);
}

#[test]
fn parse_reports_bad_lines() {
    let err = BdfFont::parse(&lines("FONTBOUNDINGBOX 6 8 0")).err().unwrap();
    assert_eq!(err.line, 0);
    let err = BdfFont::parse(&lines("ENCODING x")).err().unwrap();
    assert_eq!(err.line, 0);
    let err = BdfFont::parse(&lines("ENCODING 1\nBITMAP\nZZ")).err().unwrap();
    assert_eq!(err.line, 2);
}

#[test]
fn overlong_bitmap_row_is_refused() {
    assert!(BdfFont::try_parse(&lines("ENCODING 1\nBITMAP\n000000001")).is_none());
}
