use pyxel_core::resource_staging::{stage_images, stage_musics, stage_sounds, stage_tilemaps, StageError};
use pyxel_core::image::Image;
use pyxel_core::music::Music;
use pyxel_core::old_resource_data::{
    archive_version, ArchiveVersionError,
    parse_hex_values, parse_version_string, split_lines, ResourceError, SoundData, Tilemap,
};

#[test]
fn version_strings_become_numbers() {
    assert_eq!(parse_version_string("1.9.10"), Ok(10910));
    assert_eq!(parse_version_string(" 1.4.3\n"), Ok(10403));
    assert_eq!(parse_version_string("2"), Ok(2));
    assert!(parse_version_string("1.123").is_err());
    assert!(parse_version_string("1..2").is_err());
    assert!(parse_version_string("a.1").is_err());
    assert!(parse_version_string("99999999.1").is_err());
}

#[test]
fn lines_follow_str_lines() {
    let v: Vec<String> = split_lines("a\r\nb\n\nc\n")
        .into_iter()
        .map(|l| l.into_iter().collect())
        .collect();
    assert_eq!(v, vec!["a", "b", "", "c"]);
    assert!(split_lines("").is_empty());
}

#[test]
fn hex_values_split_in_groups() {
    let line: Vec<char> = "0a1F".chars().collect();
    assert_eq!(parse_hex_values(&line, 2, 1), Ok(vec![0x0a, 0x1f]));
    assert_eq!(
        parse_hex_values(&line, 3, 7),
        Err(ResourceError::InvalidValueWidth {
            line: 7,
            group_width: 3
        })
    );
    let bad: Vec<char> = "0g".chars().collect();
    assert_eq!(
        parse_hex_values(&bad, 1, 2),
        Err(ResourceError::InvalidHexDigit {
            digit: 'g',
            line: 2,
            column: 2
        })
    );
}

#[test]
fn music_channels_are_read_and_padded() {
    let mut music = Music::new();
    assert!(music.deserialize_old("0001\nnone\n0a").is_ok());
    assert_eq!(music.seqs, vec![vec![0, 1], vec![], vec![10], vec![]]);
    let err = music.deserialize_old("00\n00\n00\n00\n00");
    assert_eq!(
        err,
        Err(ResourceError::TooManyMusicChannels {
            got: 5,
            maximum: 4
        })
    );
    assert_eq!(music.seqs, vec![vec![0, 1], vec![], vec![10], vec![]]);
}

#[test]
fn sound_lines_fill_each_sequence() {
    let sound = SoundData::deserialize_old("00ff\n12\n77\nnone\n15").unwrap();
    assert_eq!(sound.notes, vec![0, -1]);
    assert_eq!(sound.tones, vec![1, 2]);
    assert_eq!(sound.volumes, vec![7, 7]);
    assert!(sound.effects.is_empty());
    assert_eq!(sound.speed, 15);
    assert_eq!(
        SoundData::deserialize_old("00\n0\n0\n0\nfast").err(),
        Some(ResourceError::InvalidDecimal { line: 5 })
    );
    assert_eq!(SoundData::deserialize_old("").unwrap().speed, 30);
}

#[test]
fn image_rows_are_written_from_the_corner() {
    let mut img = Image::new(3, 2);
    assert!(img.deserialize_old("12\nf").is_ok());
    assert_eq!(img.data(), &vec![1, 2, 0, 15, 0, 0]);
    assert_eq!(
        img.deserialize_old("1234"),
        Err(ResourceError::TooManyImageColumns {
            line: 1,
            got: 4,
            maximum: 3
        })
    );
    assert_eq!(
        img.deserialize_old("1\n2\n3"),
        Err(ResourceError::TooManyImageRows { got: 3, maximum: 2 })
    );
    assert_eq!(img.data(), &vec![1, 2, 0, 15, 0, 0]);
}

fn blank_tilemap() -> Tilemap {
    Tilemap {
        width: 2,
        height: 256,
        tiles: vec![(0, 0); 512],
        imgsrc: 0,
    }
}

fn tilemap_text(first: &str, index_line: Option<&str>, extra: usize) -> String {
    let mut lines: Vec<String> = vec![first.to_string()];
    for _ in 1..256 {
        lines.push(String::new());
    }
    if let Some(l) = index_line {
        lines.push(l.to_string());
    }
    for _ in 0..extra {
        lines.push("0".to_string());
    }
    lines.join("\n")
}

#[test]
fn old_tile_values_split_in_five_bits() {
    let mut tm = blank_tilemap();
    assert_eq!(tm.deserialize_old(10400, "0213ff\n022"), Ok(()));
    assert_eq!(tm.tiles[0], (1, 1));
    assert_eq!(tm.tiles[1], (31, 31));
    assert_eq!(tm.tiles[2], (2, 1));
    assert_eq!(tm.tiles[3], (0, 0));
    assert_eq!(tm.imgsrc, 0);
}

#[test]
fn new_tile_values_are_a_byte_each() {
    let mut tm = blank_tilemap();
    assert_eq!(tm.deserialize_old(10500, &tilemap_text("01020a0b", Some("2"), 0)), Ok(()));
    assert_eq!(tm.tiles[0], (1, 2));
    assert_eq!(tm.tiles[1], (10, 11));
    assert_eq!(tm.imgsrc, 2);
}

#[test]
fn tilemap_errors_leave_it_unchanged() {
    let mut tm = blank_tilemap();
    assert_eq!(
        tm.deserialize_old(10500, "010"),
        Err(ResourceError::InvalidTileWidth { line: 1, group_width: 4 })
    );
    assert_eq!(
        tm.deserialize_old(10500, "01g1"),
        Err(ResourceError::InvalidHexDigit { digit: 'g', line: 1, column: 3 })
    );
    assert_eq!(
        tm.deserialize_old(10400, "001002003"),
        Err(ResourceError::TooManyTiles { line: 1, got: 3, maximum: 2 })
    );
    assert_eq!(
        tm.deserialize_old(10500, &tilemap_text("0101", Some("3"), 0)),
        Err(ResourceError::ImageIndexOutOfRange { index: 3, line: 257 })
    );
    assert_eq!(
        tm.deserialize_old(10500, &tilemap_text("0101", Some("x"), 0)),
        Err(ResourceError::InvalidDecimal { line: 257 })
    );
    assert_eq!(
        tm.deserialize_old(10500, &tilemap_text("0101", Some("1"), 1)),
        Err(ResourceError::TooManyTilemapLines { got: 258, maximum: 257 })
    );
    assert!(tm.tiles.iter().all(|t| *t == (0, 0)));
    assert_eq!(tm.imgsrc, 0);
}

#[test]
fn archive_versions_are_checked_against_the_running_one() {
    assert_eq!(archive_version("1.4.3", 20000), Ok(10403));
    assert_eq!(archive_version("2.0.0\n", 20000), Ok(20000));
    assert_eq!(
        archive_version("2.0.1", 20000),
        Err(ArchiveVersionError::Unsupported { version: 20001, current: 20000 })
    );
    assert_eq!(archive_version("x.1", 20000), Err(ArchiveVersionError::Invalid));
}

#[test]
fn banks_stage_only_when_every_entry_reads() {
    let sounds = stage_sounds(&vec![Some("00ff\n12\n77\nnone\n15".to_string()), None]).unwrap();
    assert_eq!(sounds[0].notes, vec![0, -1]);
    assert!(sounds[1].notes.is_empty());
    assert_eq!(
        stage_sounds(&vec![None, Some("00\n0\n0\n0\nfast".to_string())]).err(),
        Some(StageError { index: 1, error: ResourceError::InvalidDecimal { line: 5 } })
    );
    let musics = stage_musics(&vec![None, Some("0001".to_string())]).unwrap();
    assert_eq!(musics[0].seqs, vec![Vec::<u32>::new(); 4]);
    assert_eq!(musics[1].seqs[0], vec![0, 1]);
    let mut img = Image::new(2, 1);
    img.clear(3);
    let images = stage_images(&vec![img.copy(), img.copy()], &vec![Some("1".to_string()), None]).unwrap();
    assert_eq!(images[0].data(), &vec![1, 3]);
    assert_eq!(images[1].data(), &vec![0, 0]);
    assert_eq!(
        stage_images(&vec![img.copy()], &vec![Some("123".to_string())]).err(),
        Some(StageError { index: 0, error: ResourceError::TooManyImageColumns { line: 1, got: 3, maximum: 2 } })
    );
    let tilemaps = stage_tilemaps(&vec![blank_tilemap(), blank_tilemap()], 10500, &vec![Some("0102".to_string()), None]).unwrap();
    assert_eq!(tilemaps[0].tiles[0], (1, 2));
    assert!(tilemaps[1].tiles.iter().all(|t| *t == (0, 0)));
}
